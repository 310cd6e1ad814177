use glsl_expand::blocks::AttribType;
use glsl_expand::blocks::BlockFace;
use glsl_expand::blocks::Chunk;
use glsl_expand::blocks::DenseBools;
use glsl_expand::blocks::to_chunk_mod;
use glsl_expand::id_based_vec::IDBasedVec;
use glsl_expand::id_based_vec::VecIter;
use glsl_expand::marked_text::MarkError;
use glsl_expand::marked_text::MarkedText;
use glsl_expand::parse_rules::MultipleVersions;
use glsl_expand::parse_rules::ParseRules;
use glsl_expand::parse_rules::SameIncludes;
use glsl_expand::paths::dedot_absolute;
use glsl_expand::paths::get_relative_path;
use glsl_expand::paths::is_absolute;
use glsl_expand::paths::join_paths;
use glsl_expand::paths::parent_of;
use glsl_expand::paths::strip_cr;
use glsl_expand::resources::get_first_word;
use glsl_expand::resources::FileFormat;

#[test]
fn mark_rebasing_moves_later_marks() {
    let mut doc: MarkedText<u32> = MarkedText::new("ABCDE".to_string());
    let target = doc.set_mark(1, 1, 3).unwrap();
    let later = doc.set_mark(2, 4, 5).unwrap();
    let replacement: MarkedText<u32> = MarkedText::new("XYZ123".to_string());
    assert!(doc.replace_mark_content(target, replacement));
    assert_eq!(doc.text(), "AXYZ123DE");
    let t = doc.get_mark(target).unwrap();
    assert_eq!((t.start(), t.end()), (1, 7));
    // the other mark began past the old end (3): both endpoints move by +4
    let l = doc.get_mark(later).unwrap();
    assert_eq!((l.start(), l.end()), (8, 9));
}

#[test]
fn replacement_brings_its_own_marks_along() {
    let mut doc: MarkedText<String> = MarkedText::new("abcd".to_string());
    let target = doc.set_mark("outer".to_string(), 1, 3).unwrap();
    let mut rep: MarkedText<String> = MarkedText::new("XY".to_string());
    let _child = rep.set_mark("inner".to_string(), 0, 1).unwrap();
    assert!(doc.replace_mark_content(target, rep));
    assert_eq!(doc.text(), "aXYd");
    // the child's mark was rebased to the splice point
    let ids = doc.get_marks_by_flag(&"inner".to_string());
    assert_eq!(ids.len(), 1);
    let c = doc.get_mark(ids[0]).unwrap();
    assert_eq!((c.start(), c.end()), (1, 2));
}

#[test]
fn cascade_removal_takes_nested_marks() {
    let mut doc: MarkedText<u32> = MarkedText::new("abcdef".to_string());
    let outer = doc.set_mark(1, 1, 5).unwrap();
    let inner = doc.set_mark(2, 2, 4).unwrap();
    let outside = doc.set_mark(3, 5, 6).unwrap();
    doc.remove_mark(outer, true);
    assert!(doc.get_mark(outer).is_none());
    assert!(doc.get_mark(inner).is_none());
    assert!(doc.get_mark(outside).is_some());
}

#[test]
fn set_mark_refuses_bad_ranges() {
    let mut doc: MarkedText<u32> = MarkedText::new("abc".to_string());
    assert_eq!(doc.set_mark(1, 0, 4), Err(MarkError::InvalidRange));
    assert_eq!(doc.set_mark(1, 2, 1), Err(MarkError::InvalidRange));
    assert!(doc.set_mark(1, 0, 3).is_ok());
}

#[test]
fn shift_marks_is_per_endpoint() {
    let mut doc: MarkedText<u32> = MarkedText::new("abcdefgh".to_string());
    let straddling = doc.set_mark(1, 1, 6).unwrap();
    let beyond = doc.set_mark(2, 5, 7).unwrap();
    doc.shift_marks(3, 2);
    // only endpoints past the pivot move: the straddling mark is resized
    let s = doc.get_mark(straddling).unwrap();
    assert_eq!((s.start(), s.end()), (1, 8));
    let b = doc.get_mark(beyond).unwrap();
    assert_eq!((b.start(), b.end()), (7, 9));
}

#[test]
fn identifier_invalidation_on_slot_reuse() {
    let mut arena: IDBasedVec<&str> = IDBasedVec::new();
    let id1 = arena.push("first");
    assert_eq!(arena.extract(id1), Some("first"));
    let id2 = arena.push("second");
    assert_eq!(id1.slot(), id2.slot());
    assert!(!arena.owns_item(id1));
    assert!(arena.owns_item(id2));
    assert_eq!(arena.get(id1), None);
    assert_eq!(arena.get(id2), Some(&"second"));
}

#[test]
fn enumeration_is_ascending_by_slot() {
    let mut arena: IDBasedVec<u32> = IDBasedVec::new();
    let a = arena.push(10);
    let b = arena.push(20);
    let c = arena.push(30);
    let _ = arena.extract(b);
    let d = arena.push(40);
    assert_eq!(d.slot(), b.slot());
    let ids = arena.current_elements();
    let slots: Vec<usize> = ids.iter().map(|i| i.slot()).collect();
    assert_eq!(slots, vec![0, 1, 2]);
    assert_eq!((a.slot(), c.slot()), (0, 2));
    let items: Vec<u32> = ids.iter().map(|i| *arena.get(*i).unwrap()).collect();
    assert_eq!(items, vec![10, 40, 30]);
}

#[test]
fn walks_visit_values_in_slot_order() {
    let mut arena: IDBasedVec<u32> = IDBasedVec::new();
    arena.push(1);
    let b = arena.push(2);
    arena.push(3);
    let _ = arena.extract(b);
    let mut borrowed = arena.iter();
    assert_eq!(borrowed.next(), Some(&1));
    assert_eq!(borrowed.next(), Some(&3));
    assert_eq!(borrowed.next(), None);
    let mut with_slots = arena.iter().enumerate_slots();
    assert_eq!(with_slots.next(), Some((0, &1)));
    assert_eq!(with_slots.next(), Some((2, &3)));
    assert_eq!(with_slots.next(), None);
    let mut draining = VecIter::new(arena);
    assert_eq!(draining.next(), Some(1));
    assert_eq!(draining.next(), Some(3));
    assert_eq!(draining.next(), None);
}

#[test]
fn draining_walks_name_their_slots() {
    let mut arena: IDBasedVec<u32> = IDBasedVec::new();
    arena.push(7);
    let b = arena.push(8);
    arena.push(9);
    let _ = arena.extract(b);
    let mut draining = VecIter::new(arena).enumerate_slots();
    assert_eq!(draining.next(), Some((0, 7)));
    assert_eq!(draining.next(), Some((2, 9)));
    assert_eq!(draining.next(), None);
}

#[test]
fn find_elements_filters_in_slot_order() {
    let mut arena: IDBasedVec<u32> = IDBasedVec::new();
    arena.push(5);
    arena.push(10);
    arena.push(15);
    let big = arena.find_elements(|v| *v >= 10);
    assert_eq!(big.len(), 2);
    assert_eq!(arena.get(big[0]), Some(&10));
    assert_eq!(arena.get(big[1]), Some(&15));
}

#[test]
fn dedot_resolves_segments() {
    assert_eq!(dedot_absolute(&"/a/./b/../c".to_string()), "/a/c");
    assert_eq!(dedot_absolute(&"/a/b".to_string()), "/a/b");
}

#[test]
fn path_helpers_behave() {
    assert!(is_absolute(&"/a".to_string()));
    assert!(!is_absolute(&"a".to_string()));
    assert_eq!(join_paths(&"/a/b".to_string(), &"c".to_string()), "/a/b/c");
    assert_eq!(join_paths(&"/a/".to_string(), &"c".to_string()), "/a/c");
    assert_eq!(join_paths(&"/a".to_string(), &"/x".to_string()), "/x");
    assert_eq!(parent_of(&"/a/b".to_string()), Some("/a".to_string()));
    assert_eq!(parent_of(&"/a".to_string()), Some("/".to_string()));
    assert_eq!(parent_of(&"/".to_string()), None);
    assert_eq!(strip_cr(&"a\r\nb".to_string()), "a\nb");
    assert_eq!(get_relative_path("/a/b".to_string(), "/a/c/d".to_string()), "../c/d");
    assert_eq!(get_relative_path("/a".to_string(), "/a/x".to_string()), "x");
}

#[test]
fn rules_merge_override_wins() {
    let defaults = ParseRules::new();
    assert_eq!(defaults.same_includes().value(), SameIncludes::DeleteRepeats);
    assert!(defaults.display_warns().value());
    assert_eq!(defaults.multiple_versions().value(), MultipleVersions::SetToHighest);

    let mut explicit = ParseRules::new();
    explicit.set_same_includes(SameIncludes::IgnoreAll);
    // an explicit holder beats a default newcomer
    let kept = explicit.merge(ParseRules::new());
    assert_eq!(kept.same_includes().value(), SameIncludes::IgnoreAll);
    // an explicit newcomer beats a default holder
    let taken = ParseRules::new().merge(explicit);
    assert_eq!(taken.same_includes().value(), SameIncludes::IgnoreAll);
    // between two defaults the newcomer wins
    let both_default = ParseRules::new().merge(ParseRules::new());
    assert_eq!(both_default.same_includes().value(), SameIncludes::DeleteRepeats);
    // add mirrors merge, in place
    let mut base = ParseRules::new();
    base.add(explicit);
    assert_eq!(base.same_includes().value(), SameIncludes::IgnoreAll);
}

#[test]
fn formats_are_judged_by_extension() {
    assert_eq!(FileFormat::from_string("PNG".to_string()), FileFormat::Png);
    assert_eq!(FileFormat::from_string("frag".to_string()), FileFormat::Frag);
    assert_eq!(FileFormat::from_string("VeRt".to_string()), FileFormat::Vert);
    assert_eq!(FileFormat::from_string("".to_string()), FileFormat::Folder);
    assert_eq!(FileFormat::from_string("txt".to_string()), FileFormat::Other);
    assert_eq!(FileFormat::from_path_buf(&"/a/b.frag".to_string()), FileFormat::Frag);
    assert_eq!(FileFormat::from_path_buf(&"/a/b".to_string()), FileFormat::Folder);
    assert_eq!(FileFormat::from_path_buf(&"/a/".to_string()), FileFormat::Folder);
    assert_eq!(FileFormat::from_path_buf(&"/".to_string()), FileFormat::Error);
    assert!(FileFormat::Vert.is_shader());
    assert!(!FileFormat::Png.is_shader());
    assert!(FileFormat::Png.is_image());
}

#[test]
fn first_word_stops_at_backslash_and_suffix() {
    assert_eq!(get_first_word("name.block\\stuff".to_string()), "name");
    assert_eq!(get_first_word("plain".to_string()), "plain");
    assert_eq!(get_first_word("a.b.c".to_string()), "a.b");
}

#[test]
fn dense_bools_pack_and_unpack() {
    let b = DenseBools::from8([true, false, true, false, false, false, false, true]);
    assert_eq!(b.0, 0b1000_0101);
    assert!(b.get(0));
    assert!(!b.get(1));
    assert!(b.get(7));
    let mut c = b;
    c.set(1, true);
    c.set(0, false);
    assert!(!c.get(0));
    assert!(c.get(1));
    assert!(c.get(2));
}

#[test]
fn block_faces_round_trip() {
    for i in 0..6usize {
        assert_eq!(BlockFace::from_index(i).index(), i);
    }
}

#[test]
fn attrib_sizes() {
    assert_eq!(AttribType::Vec3.size(), 12);
    assert_eq!(AttribType::Basis.size(), 36);
    assert!(AttribType::Int.is_int());
    assert!(!AttribType::Float.is_int());
}

#[test]
fn chunks_hold_blocks() {
    let mut c = Chunk::empty(0, 0, 0);
    assert_eq!(Chunk::pos_id(1, 2, 3), 3 * 1024 + 2 * 32 + 1);
    c.set_block(7, 1, 2, 3, DenseBools(0));
    c.set_block(9, -1, 2, 3, DenseBools(0));
    assert_eq!(to_chunk_mod(-1), 31);
    assert_eq!(to_chunk_mod(33), 1);
    assert_eq!(to_chunk_mod(5), 5);
}

#[test]
fn offsets_shift_safely() {
    assert_eq!(glsl_expand::marked_text::add_isize_to_usize(10, 5), 15);
    assert_eq!(glsl_expand::marked_text::add_isize_to_usize(10, -7), 3);
}
