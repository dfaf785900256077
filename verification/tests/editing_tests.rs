use kv_store::editing::{edit_text, parse_edited_note, EditError};

#[test]
fn edit_text_layout() {
    assert_eq!(edit_text("Shopping", "milk\neggs"), "Title: Shopping\n\nmilk\neggs");
    assert_eq!(edit_text("", ""), "Title: \n\n");
}

#[test]
fn unedited_text_reads_back() {
    let text = edit_text("Shopping", "milk\neggs");
    assert_eq!(
        parse_edited_note(&text),
        Ok(("Shopping".to_string(), "milk\neggs".to_string()))
    );
}

#[test]
fn title_and_body_are_trimmed() {
    assert_eq!(
        parse_edited_note("Title:   Plan  \n\nstep one\nstep two \n\n"),
        Ok(("Plan".to_string(), "step one\nstep two".to_string()))
    );
}

#[test]
fn body_follows_the_title_line_when_no_blank_line() {
    assert_eq!(
        parse_edited_note("Title: A\nline 1\nline 2"),
        Ok(("A".to_string(), "line 1\nline 2".to_string()))
    );
    // a single line after the title is the body, blank or not
    assert_eq!(parse_edited_note("Title: A\n   "), Ok(("A".to_string(), "".to_string())));
    // a blank second line followed by more lines is skipped
    assert_eq!(
        parse_edited_note("Title: A\n \t\n  indented"),
        Ok(("A".to_string(), "  indented".to_string()))
    );
}

#[test]
fn title_only() {
    assert_eq!(parse_edited_note("Title: Solo"), Ok(("Solo".to_string(), "".to_string())));
}

#[test]
fn edit_errors() {
    assert_eq!(parse_edited_note(""), Err(EditError::MissingTitlePrefix));
    assert_eq!(parse_edited_note("title: lower"), Err(EditError::MissingTitlePrefix));
    assert_eq!(parse_edited_note("Title:"), Err(EditError::MissingTitlePrefix));
    assert_eq!(parse_edited_note("Title: \u{a0} \n\nbody"), Err(EditError::EmptyTitle));
    assert_eq!(parse_edited_note("Title:  \n"), Err(EditError::EmptyTitle));
}
