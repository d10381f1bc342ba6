use lib::{
    Command, FilePickerAction, FilePickerEntry, FilePickerOutcome, ListItem, command_matches,
    file_picker_action_enabled, file_picker_action_outcome, file_picker_pointer_outcome,
    list_visible_indices,
    list_window, normalized_list_selection, normalized_selection, position_for_action,
    viewport_range, visible_indices,
};

#[test]
fn filtering_matches_shared_fixtures() {
    // label, keywords, query, match
    let records: [(&str, &[&str], &str, bool); 8] = [
        ("Open File", &[], "open", true),
        ("Open File", &[], "FILE", true),
        ("Open File", &[], "save", false),
        ("Save", &["write", "disk"], "DISK", true),
        ("Save", &[], "", true),
        ("Quit", &["exit"], "xit", true),
        ("Quit", &["exit"], "quiz", false),
        ("Reload", &["refresh"], "re", true),
    ];
    for (index, (label, keywords, query, expected)) in records.iter().enumerate() {
        let command = Command::new("command", label)
            .keywords(keywords.iter().map(|keyword| keyword.to_string()).collect());
        assert_eq!(command_matches(&command, query), *expected, "case {index}");
    }
}

#[test]
fn filtering_and_navigation_match_shared_fixtures() {
    // hidden, show hidden, selected, viewport, visible, normalized, start, end, page up, page down
    let records: Vec<(Vec<bool>, bool, usize, usize, Vec<usize>, Option<usize>, usize, usize, usize, usize)> = vec![
        (vec![false, true, false, false], false, 2, 2, vec![0, 2, 3], Some(1), 0, 2, 0, 2),
        (vec![], false, 0, 3, vec![], None, 0, 0, 0, 0),
        (vec![true, true], true, 5, 0, vec![0, 1], Some(1), 0, 2, 0, 1),
        (vec![false; 12], false, 11, 5, (0..12).collect(), Some(11), 7, 12, 6, 11),
        (vec![true, false, true], false, 0, 1, vec![1], Some(0), 0, 1, 0, 0),
    ];
    for (index, (hidden, show_hidden, selected, viewport, visible, normalized, start, end, up, down)) in
        records.into_iter().enumerate()
    {
        let entries: Vec<FilePickerEntry> = hidden
            .iter()
            .enumerate()
            .map(|(position, hidden)| {
                let name = position.to_string();
                FilePickerEntry::file(&name, &name, &name).hidden(*hidden)
            })
            .collect();
        let actual = visible_indices(&entries, show_hidden);
        assert_eq!(actual, visible, "case {index}");
        let selection = normalized_selection(&actual, selected);
        assert_eq!(selection, normalized, "case {index}");
        let range = if viewport > 0 {
            selection.map_or((0, actual.len()), |selection| viewport_range(actual.len(), selection, viewport))
        } else {
            (0, actual.len())
        };
        assert_eq!(range, (start, end), "case {index}");
        let Some(selection) = selection else {
            continue;
        };
        assert_eq!(
            position_for_action(selection, actual.len(), viewport, FilePickerAction::PreviousPage),
            Some(up),
            "case {index} page-up"
        );
        assert_eq!(
            position_for_action(selection, actual.len(), viewport, FilePickerAction::NextPage),
            Some(down),
            "case {index} page-down"
        );
    }
}

#[test]
fn filtering_window_and_selection_match_shared_fixtures() {
    // labels, query, offset, limit, selected, visible, normalized
    let records: [(&str, &str, usize, usize, usize, &[usize], Option<usize>); 5] = [
        ("alpha|beta|Gamma|delta", "a", 1, 2, 3, &[1, 2], Some(1)),
        ("alpha|beta|Gamma|delta", "GAM", 0, 5, 0, &[2], Some(0)),
        ("alpha|beta|Gamma|delta", "zzz", 0, 5, 0, &[], None),
        ("alpha|beta|Gamma|delta", "", 10, 3, 0, &[], None),
        ("alpha|beta|Gamma|delta", "ta", 0, 1, 1, &[1], Some(0)),
    ];
    for (index, (labels, query, offset, limit, selected, visible, normalized)) in records.iter().enumerate() {
        let items: Vec<ListItem> = labels.split('|').map(|label| ListItem::new(label, label)).collect();
        let window = list_window(&list_visible_indices(&items, query), *offset, *limit);
        assert_eq!(window, visible.to_vec(), "case {index}");
        assert_eq!(normalized_list_selection(&window, *selected), *normalized, "case {index}");
    }
}

#[test]
fn file_picker_commands_report_the_caller_messages() {
    let visible = [2usize, 5, 7];
    assert_eq!(file_picker_action_outcome(&[], 0, 0, FilePickerAction::Next, true, true), FilePickerOutcome::Ignored);
    assert_eq!(file_picker_action_outcome(&[], 0, 0, FilePickerAction::Activate, true, true), FilePickerOutcome::Ignored);
    assert_eq!(file_picker_action_outcome(&visible, 1, 0, FilePickerAction::Activate, false, true), FilePickerOutcome::Ignored);
    assert_eq!(file_picker_action_outcome(&visible, 1, 0, FilePickerAction::Activate, true, false), FilePickerOutcome::Open(5));
    assert_eq!(file_picker_action_outcome(&visible, 1, 0, FilePickerAction::Back, true, false), FilePickerOutcome::Ignored);
    assert_eq!(file_picker_action_outcome(&visible, 1, 0, FilePickerAction::Back, false, true), FilePickerOutcome::Back);
    assert_eq!(file_picker_action_outcome(&visible, 1, 0, FilePickerAction::Next, false, false), FilePickerOutcome::Select(7));
    assert_eq!(file_picker_action_outcome(&visible, 2, 0, FilePickerAction::Next, false, false), FilePickerOutcome::Consumed);
    assert_eq!(file_picker_action_outcome(&visible, 0, 0, FilePickerAction::Previous, false, false), FilePickerOutcome::Consumed);
    assert_eq!(file_picker_action_outcome(&visible, 2, 0, FilePickerAction::First, false, false), FilePickerOutcome::Select(2));
    assert_eq!(file_picker_action_outcome(&visible, 9, 0, FilePickerAction::Activate, true, false), FilePickerOutcome::Open(7));
    assert_eq!(file_picker_action_outcome(&visible, 9, 0, FilePickerAction::Last, false, false), FilePickerOutcome::Consumed);
    assert_eq!(file_picker_action_outcome(&visible, 0, 0, FilePickerAction::NextPage, false, false), FilePickerOutcome::Select(7));
    assert_eq!(file_picker_action_outcome(&visible, 0, 1, FilePickerAction::NextPage, false, false), FilePickerOutcome::Select(5));
    assert_eq!(file_picker_action_outcome(&visible, 2, 1, FilePickerAction::PreviousPage, false, false), FilePickerOutcome::Select(5));

    assert_eq!(file_picker_pointer_outcome(false, true, 4, true), FilePickerOutcome::Ignored);
    assert_eq!(file_picker_pointer_outcome(true, true, 4, true), FilePickerOutcome::Open(4));
    assert_eq!(file_picker_pointer_outcome(true, true, 4, false), FilePickerOutcome::Consumed);
    assert_eq!(file_picker_pointer_outcome(true, false, 4, true), FilePickerOutcome::SelectAndOpen(4));
    assert_eq!(file_picker_pointer_outcome(true, false, 4, false), FilePickerOutcome::Select(4));
}

#[test]
fn file_picker_commands_need_their_handlers_to_be_enabled() {
    assert!(file_picker_action_enabled(FilePickerAction::Next, true, false, false));
    assert!(!file_picker_action_enabled(FilePickerAction::Next, false, true, true));
    assert!(!file_picker_action_enabled(FilePickerAction::Activate, true, false, true));
    assert!(file_picker_action_enabled(FilePickerAction::Activate, true, true, false));
    assert!(!file_picker_action_enabled(FilePickerAction::Back, true, true, false));
    assert!(file_picker_action_enabled(FilePickerAction::Back, true, false, true));
}
