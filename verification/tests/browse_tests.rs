use kv_store::browse::{
    after_action, browse_step, clamp_selected, matching_notes, visible_notes, ActionOutcome, BrowseAction,
    BrowseState, KeyInput, SortMode,
};
use kv_store::notes::NoteMeta;

fn meta(id: u64, title: &str, updated_at: u64, tags: &[&str]) -> NoteMeta {
    NoteMeta { id, title: title.to_string(), updated_at, tags: tags.iter().map(|t| t.to_string()).collect() }
}

fn sample() -> Vec<NoteMeta> {
    vec![
        meta(1, "Shopping List", 30, &["home"]),
        meta(2, "rust notes", 10, &["Work", "Code"]),
        meta(3, "Zebra", 20, &[]),
        meta(4, "apple pie", 20, &["recipe"]),
    ]
}

fn ids(v: &[NoteMeta]) -> Vec<u64> {
    v.iter().map(|m| m.id).collect()
}

fn press(state: BrowseState, matching: &Vec<NoteMeta>, keys: &[KeyInput]) -> (BrowseState, Vec<BrowseAction>) {
    let mut s = state;
    let mut actions = Vec::new();
    for k in keys {
        let (n, a) = browse_step(s, matching, *k);
        s = n;
        actions.push(a);
    }
    (s, actions)
}

#[test]
fn search_matches_lowercased_titles_and_tags() {
    let metas = sample();
    assert_eq!(ids(&matching_notes(&metas, "")), vec![1, 2, 3, 4]);
    assert_eq!(ids(&matching_notes(&metas, "LIST")), vec![1]);
    assert_eq!(ids(&matching_notes(&metas, "work")), vec![2]);
    assert_eq!(ids(&matching_notes(&metas, "e")), vec![1, 2, 3, 4]);
    assert_eq!(ids(&matching_notes(&metas, "pie")), vec![4]);
    assert_eq!(ids(&matching_notes(&metas, "nothing")), Vec::<u64>::new());
}

#[test]
fn visible_notes_sort_and_reverse() {
    let metas = sample();
    assert_eq!(ids(&visible_notes(&metas, "", SortMode::Id, false)), vec![1, 2, 3, 4]);
    assert_eq!(ids(&visible_notes(&metas, "", SortMode::Id, true)), vec![4, 3, 2, 1]);
    // titles compare as strings do: upper case before lower case
    assert_eq!(ids(&visible_notes(&metas, "", SortMode::Title, false)), vec![1, 3, 4, 2]);
    // equal times keep their order (3 before 4), then the whole list is reversed
    assert_eq!(ids(&visible_notes(&metas, "", SortMode::Updated, false)), vec![2, 3, 4, 1]);
    assert_eq!(ids(&visible_notes(&metas, "", SortMode::Updated, true)), vec![1, 4, 3, 2]);
    assert_eq!(ids(&visible_notes(&metas, "e", SortMode::Title, false)), vec![1, 3, 4, 2]);
}

#[test]
fn initial_state() {
    let s = BrowseState::new();
    assert_eq!(s.selected, 0);
    assert!(s.search.is_empty() && !s.in_search && !s.in_new && !s.confirm_delete);
    assert_eq!(s.sort_mode, SortMode::Updated);
    assert!(s.sort_desc);
    assert!(s.error.is_none() && s.delete_id.is_none());
}

#[test]
fn quit_and_sort_keys() {
    let metas = sample();
    let (s, a) = press(BrowseState::new(), &metas, &[KeyInput::Char('s'), KeyInput::Char('S'), KeyInput::Char('q')]);
    assert_eq!(s.sort_mode, SortMode::Id);
    assert!(!s.sort_desc);
    assert_eq!(a, vec![BrowseAction::Nothing, BrowseAction::Nothing, BrowseAction::Quit]);
    let (s, _) = press(s, &metas, &[KeyInput::Char('s'), KeyInput::Char('s')]);
    assert_eq!(s.sort_mode, SortMode::Updated);
}

#[test]
fn moving_the_selection() {
    let metas = sample();
    let (s, _) = press(BrowseState::new(), &metas, &[KeyInput::Up, KeyInput::Down, KeyInput::Char('j'), KeyInput::Down]);
    assert_eq!(s.selected, 3);
    let (s, _) = press(s, &metas, &[KeyInput::Down]);
    assert_eq!(s.selected, 3);
    let (s, _) = press(s, &metas, &[KeyInput::Char('k'), KeyInput::Up]);
    assert_eq!(s.selected, 1);
}

#[test]
fn searching_clamps_the_selection() {
    let metas = sample();
    let (mut s, _) = press(BrowseState::new(), &metas, &[KeyInput::Down, KeyInput::Down, KeyInput::Char('/')]);
    assert!(s.in_search);
    for c in "pie".chars() {
        s = browse_step(s, &metas, KeyInput::Char(c)).0;
    }
    assert_eq!(s.search, "pie");
    let s = browse_step(s, &metas, KeyInput::Backspace).0;
    assert_eq!(s.search, "pi");
    let matching = matching_notes(&metas, &s.search);
    // "Shopping List" and "apple pie" hold "pi"
    assert_eq!(ids(&matching), vec![1, 4]);
    let (s, a) = browse_step(s, &matching, KeyInput::Enter);
    assert!(!s.in_search);
    assert_eq!(s.selected, 1);
    assert_eq!(a, BrowseAction::Nothing);
}

#[test]
fn deleting_asks_first() {
    let metas = sample();
    let (s, a) = press(BrowseState::new(), &metas, &[KeyInput::Down, KeyInput::Char('d')]);
    assert!(s.confirm_delete);
    assert_eq!(s.delete_id, Some(2));
    assert_eq!(a[1], BrowseAction::Nothing);
    let (s2, a2) = browse_step(s, &metas, KeyInput::Char('x'));
    assert!(s2.confirm_delete);
    assert_eq!(a2, BrowseAction::Nothing);
    let (s3, a3) = browse_step(s2, &metas, KeyInput::Char('y'));
    assert!(!s3.confirm_delete && s3.delete_id.is_none());
    assert_eq!(a3, BrowseAction::DeleteNote(2));
    let (s4, a4) = press(s3, &metas, &[KeyInput::Char('d'), KeyInput::Esc]);
    assert!(!s4.confirm_delete);
    assert_eq!(a4, vec![BrowseAction::Nothing, BrowseAction::Nothing]);
}

#[test]
fn a_new_note_takes_a_trimmed_title() {
    let metas = sample();
    let mut s = browse_step(BrowseState::new(), &metas, KeyInput::Char('n')).0;
    assert!(s.in_new);
    for c in "  Plan x".chars() {
        s = browse_step(s, &metas, KeyInput::Char(c)).0;
    }
    s = browse_step(s, &metas, KeyInput::Backspace).0;
    s = browse_step(s, &metas, KeyInput::Char(' ')).0;
    let (s, a) = browse_step(s, &metas, KeyInput::Enter);
    assert_eq!(a, BrowseAction::CreateNote("Plan".to_string()));
    assert!(s.in_new);
    let s = after_action(s, &a, ActionOutcome::Done(5));
    assert!(!s.in_new);
    assert!(s.new_title.is_empty());
    assert_eq!(s.selected, 4);

    // a blank title creates nothing; Esc leaves
    let (s, a) = press(s, &metas, &[KeyInput::Char('n'), KeyInput::Char(' '), KeyInput::Enter, KeyInput::Esc]);
    assert_eq!(a[2], BrowseAction::Nothing);
    assert!(!s.in_new);
}

#[test]
fn edit_open_and_attach_act_on_the_selected_match() {
    let metas = sample();
    let (_, a) = press(BrowseState::new(), &metas, &[KeyInput::Down, KeyInput::Char('e'), KeyInput::Char('i')]);
    assert_eq!(a[1], BrowseAction::EditNote(2));
    assert_eq!(a[2], BrowseAction::OpenImage(2));
    let mut s = BrowseState::new();
    s.selected = 9;
    let (s, a) = browse_step(s, &metas, KeyInput::Char('a'));
    assert_eq!(s.selected, 3);
    assert_eq!(a, BrowseAction::AttachImage(4));
    let (s, a) = browse_step(s, &Vec::new(), KeyInput::Char('a'));
    assert_eq!(a, BrowseAction::Nothing);
    assert_eq!(s.error.as_deref(), Some("No note selected"));
    let (s, _) = browse_step(s, &Vec::new(), KeyInput::Char('e'));
    assert_eq!(s.error.as_deref(), Some("No note selected"));
}

#[test]
fn outcomes_and_clamping() {
    let mut s = BrowseState::new();
    s.selected = 5;
    let s = clamp_selected(s, 3);
    assert_eq!(s.selected, 2);
    let s = clamp_selected(s, 0);
    assert_eq!(s.selected, 2);

    let s = after_action(s, &BrowseAction::DeleteNote(1), ActionOutcome::Done(2));
    assert_eq!(s.selected, 1);
    let s = after_action(s, &BrowseAction::DeleteNote(1), ActionOutcome::Done(0));
    assert_eq!(s.selected, 0);
    let s = after_action(s, &BrowseAction::EditNote(1), ActionOutcome::Failed("Edit failed: x".to_string()));
    assert_eq!(s.error.as_deref(), Some("Edit failed: x"));
    let s = after_action(s, &BrowseAction::Nothing, ActionOutcome::Failed("ignored".to_string()));
    assert_eq!(s.error.as_deref(), Some("Edit failed: x"));
    let s = after_action(s, &BrowseAction::OpenImage(1), ActionOutcome::Done(3));
    assert_eq!(s.error.as_deref(), Some("Edit failed: x"));
    let s = after_action(s, &BrowseAction::AttachImage(1), ActionOutcome::Done(3));
    assert!(s.error.is_none());
}
