//! The store of comments that wait to be printed, and the text that they come from.
use comment_weave::comment::{
    Comment, CommentContent, CommentKind, CommentNewlines, CommentPosition, Span,
};
use comment_weave::list::CommentList;
use comment_weave::store::{any_matching, take_matching, CommentStore};
use comment_weave::text::{contains_line_break, ends_with, get_range, starts_with, trim_start};

fn comment(attached_to: u32, start: u32, leading: bool, content: CommentContent) -> Comment {
    Comment {
        span: Span { start, end: start + 1 },
        attached_to,
        kind: CommentKind::Line,
        position: if leading { CommentPosition::Leading } else { CommentPosition::Trailing },
        newlines: CommentNewlines { leading: false, trailing: false },
        content,
    }
}

fn plain(attached_to: u32, start: u32, leading: bool) -> Comment {
    comment(attached_to, start, leading, CommentContent::Plain)
}

fn starts(list: &CommentList) -> Vec<u32> {
    list.items().iter().map(|c| c.span.start).collect()
}

fn store() -> CommentStore {
    let mut comments = vec![
        plain(20, 9, true),
        plain(10, 5, false),
        plain(10, 3, true),
        plain(30, 1, true),
        plain(10, 4, true),
        comment(20, 7, true, CommentContent::Pure),
        plain(10, 2, false),
    ];
    let store = CommentStore::build(&mut comments);
    assert!(comments.is_empty());
    store
}

#[test]
fn comments_are_filed_by_boundary_and_side() {
    let store = store();
    let anchors: Vec<u32> = store.groups.iter().map(|g| g.anchor).collect();
    assert_eq!(anchors, vec![10, 20, 30]);
    assert_eq!(starts(&store.groups[0].leading), vec![3, 4]);
    assert_eq!(starts(&store.groups[0].trailing), vec![2, 5]);
    assert_eq!(starts(&store.groups[1].leading), vec![7, 9]);
    assert_eq!(store.index(20), Ok(1));
    assert_eq!(store.index(5), Err(0));
    assert_eq!(store.index(25), Err(2));
    assert_eq!(store.index(35), Err(3));
    assert_eq!(store.bounds(10, 20, false), (0, 1));
    assert_eq!(store.bounds(10, 20, true), (0, 2));
    assert_eq!(store.bounds(11, 19, true), (1, 1));
    assert_eq!(store.bounds(25, 15, true), (2, 1));
    assert!(store.groups.iter().all(|g| !g.leading.is_empty() || !g.trailing.is_empty()));
}

#[test]
fn a_new_store_is_empty() {
    let mut store = CommentStore::default();
    assert!(store.groups.is_empty());
    assert!(store.take_all_remaining().is_empty());
    assert!(!store.has_remaining_in(0, u32::MAX));
}

#[test]
fn looking_takes_nothing() {
    let store = store();
    assert_eq!(starts(store.leading_at(10).unwrap()), vec![3, 4]);
    assert_eq!(starts(store.trailing_at(10).unwrap()), vec![2, 5]);
    assert!(store.trailing_at(20).is_none());
    assert!(store.leading_at(15).is_none());
    assert!(store.has_non_semantic_at(20));
    assert!(store.has_between(10, 30));
    assert!(!store.has_between(10, 20));
    assert!(!store.has_between(30, 10));
    assert!(store.has_remaining_in(30, 30));
    assert!(!store.has_remaining_in(21, 29));
    assert!(store.has_matching_before(21, |c| c.is_pure()));
    assert!(!store.has_matching_before(20, |c| c.is_pure()));
}

#[test]
fn taking_takes_once() {
    let mut store = store();
    assert_eq!(starts(&store.take_leading_at(10).unwrap()), vec![3, 4]);
    assert!(store.take_leading_at(10).is_none());
    assert!(store.leading_at(10).is_none());
    assert_eq!(starts(&store.take_trailing_at(10).unwrap()), vec![2, 5]);
    assert!(store.take_trailing_at(10).is_none());
    assert!(store.take_leading_at(11).is_none());
    assert!(store.take_trailing_at(11).is_none());
    assert_eq!(starts(&store.take_all_remaining()), vec![1, 7, 9]);
    assert!(store.take_all_remaining().is_empty());
}

#[test]
fn matching_comments_are_taken_and_the_others_left() {
    let mut store = store();
    assert_eq!(starts(&store.take_matching_at(10, |c| c.span.start > 2)), vec![3, 4, 5]);
    assert_eq!(starts(&store.take_matching_at(10, |_| true)), vec![2]);
    assert_eq!(starts(&store.take_matching_leading_at(20, |c| c.is_pure())), vec![7]);
    assert_eq!(starts(&store.take_matching_leading_at(20, |c| c.is_pure())), Vec::<u32>::new());
    assert_eq!(starts(&store.take_matching_trailing_at(20, |_| true)), Vec::<u32>::new());
    assert_eq!(starts(&store.take_matching_at(99, |_| true)), Vec::<u32>::new());
    assert_eq!(starts(&store.take_between(10, 31, |_| true)), vec![1, 9]);
}

#[test]
fn ranges_of_boundaries() {
    let mut first = store();
    assert_eq!(starts(&first.take_remaining_in(10, 20)), vec![2, 3, 4, 5, 7, 9]);
    assert_eq!(starts(&first.take_remaining_in(10, 30)), vec![1]);
    let mut second = store();
    assert_eq!(starts(&second.take_remaining_in(20, 10)), Vec::<u32>::new());
    assert_eq!(starts(&second.take_between(10, 30, |c| !c.is_pure())), vec![9]);
    assert_eq!(starts(&second.take_between(30, 10, |_| true)), Vec::<u32>::new());
    assert_eq!(starts(&second.take_matching_before(20, |c| !c.is_leading())), vec![2, 5]);
    assert_eq!(starts(&second.take_matching_before(30, |_| true)), vec![3, 4, 7]);
}

#[test]
fn the_nearest_boundary() {
    let store = store();
    assert_eq!(store.nearest_matching_leading_anchor(30, |_| true), Some(30));
    assert_eq!(store.nearest_matching_leading_anchor(29, |_| true), Some(20));
    assert_eq!(store.nearest_matching_leading_anchor(29, |c| c.span.start < 5), Some(10));
    assert_eq!(store.nearest_matching_leading_anchor(9, |_| true), None);
    // Trailing comments do not count.
    assert_eq!(store.nearest_matching_leading_anchor(30, |c| c.span.start == 5), None);
}

#[test]
fn lists_are_split_in_order() {
    let mut taken = store().take_all_remaining();
    assert!(any_matching(&taken, |c| c.span.start == 9));
    assert!(!any_matching(&taken, |c| c.span.start == 6));
    let odd = take_matching(&mut taken, |c| c.span.start % 2 == 1);
    assert_eq!(starts(&odd), vec![1, 3, 5, 7, 9]);
    assert_eq!(starts(&taken), vec![2, 4]);
    let mut all = odd.sorted_by_start();
    all.append(&taken);
    assert_eq!(starts(&all), vec![1, 3, 5, 7, 9, 2, 4]);
    assert_eq!(starts(&all.sorted_by_start()), vec![1, 2, 3, 4, 5, 7, 9]);
}

#[test]
fn ranges_of_text_are_cut_between_characters() {
    let text = "a\u{e9}\u{20ac}b";
    assert_eq!(get_range(text, 0, 7), Some("a\u{e9}\u{20ac}b"));
    assert_eq!(get_range(text, 1, 3), Some("\u{e9}"));
    assert_eq!(get_range(text, 3, 6), Some("\u{20ac}"));
    assert_eq!(get_range(text, 7, 7), Some(""));
    assert_eq!(get_range(text, 2, 3), None);
    assert_eq!(get_range(text, 1, 4), None);
    assert_eq!(get_range(text, 3, 1), None);
    assert_eq!(get_range(text, 0, 8), None);
    assert!(contains_line_break("a\u{2028}"));
    assert!(contains_line_break("a\r"));
    assert!(!contains_line_break("a\u{b}b"));
}

#[test]
fn white_space_is_that_of_unicode() {
    for text in ["", " ", " \t a", "\u{a0}\u{3000}x ", "\u{200b} x", "\u{85}\u{1680}\u{202f}y"] {
        assert_eq!(trim_start(text), text.trim_start());
    }
    for (text, part) in [("/* a */", "/*"), ("", ""), ("*", "*/"), ("a*/", "*/"), ("\u{e9}*/", "\u{e9}")]
    {
        assert_eq!(starts_with(text, part), text.starts_with(part));
        assert_eq!(ends_with(text, part), text.ends_with(part));
    }
}

#[test]
fn places_commute() {
    let mut first = store();
    let a = starts(&first.take_leading_at(10).unwrap());
    let b = starts(&first.take_matching_at(20, |c| c.is_pure()));
    let mut second = store();
    let c = starts(&second.take_matching_at(20, |c| c.is_pure()));
    let d = starts(&second.take_leading_at(10).unwrap());
    assert_eq!((a, b), (d, c));
    assert_eq!(starts(&first.take_all_remaining()), starts(&second.take_all_remaining()));
}
