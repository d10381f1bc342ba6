//! Verified state, geometry, and document logic for standard terminal widgets

mod calendar;
mod chart_plot;
mod code;
mod code_layout;
mod code_view;
mod command_palette;
mod composer;
mod composer_limits;
mod dialog;
mod diff;
mod diff_layout;
mod diff_view;
mod drawer;
mod event;
mod file_picker;
mod glyphs;
mod help;
mod json;
mod json_document;
mod json_inspector;
mod json_nodes;
mod list;
mod navigation;
mod paginator;
mod scale;
mod selectable_text;
mod split_pane;
mod status_bar;
mod suggestion;
mod suggestion_rows;
mod text;
mod text_area;
mod widget_text;

pub use calendar::{
    CalendarAction, CalendarCell, CalendarDate, CalendarWeekStart, active_date, add_days,
    add_months, calendar_cell, calendar_date_id, calendar_day_text, calendar_grid, calendar_title,
    date_for_action, days_in_month, grid_date, lemma_date_ordinal_injective, lemma_grid_shows_month,
    lemma_weekday_follows_day_number, month_offset, normalize_date, weekday_labels, weekday_of,
};
pub use chart_plot::{
    chart_cell, chart_plot_area, chart_series_cells, lemma_line_joins_endpoints, line_cell,
    line_cells, line_length,
};
pub use code::{
    CodeDocument, CodeDocumentError, CodeDocumentErrorKind, CodeDocumentLimits, CodeLayoutError,
    CodeLayoutErrorKind, CodeLayoutLimits, CodeLine, CodeSpan, DEFAULT_CODE_DOCUMENT_MAX_LINES,
    DEFAULT_CODE_DOCUMENT_MAX_SPANS, DEFAULT_CODE_DOCUMENT_MAX_TEXT_BYTES,
    DEFAULT_CODE_LAYOUT_MAX_DISPLAY_BYTES, DEFAULT_CODE_LAYOUT_MAX_VISUAL_ROWS,
    DEFAULT_CODE_LAYOUT_TAB_WIDTH, DEFAULT_CODE_LAYOUT_VIEWPORT_WIDTH, InvalidCodeLine,
    InvalidCodeLineKind, check_layout_limit, check_limit, code_layout_widths, decimal_digits,
    default_u64, lemma_code_lines_check_totals, lemma_copyable_range,
};
pub use code_layout::{
    CodeCell, CodeLayout, CodeLayoutOptions, CodeVisualRow, lemma_code_layout_rows,
    lemma_layout_line_content, lemma_tab_reaches_stop,
};
pub use code_view::{
    CodeCopyKind, CodeCopyRequest, CodeViewAction, CodeViewState, code_gutter_text,
    code_view_state_for_action, copy_actions_enabled, copy_request, is_blocked_copy_repeat,
    lemma_normalize_code_view, normalize_code_view, pointer_state, slice_cells_by_width,
    visible_row_window,
};
pub use command_palette::{
    Command, CommandPaletteKey, CommandPaletteOutcome, command_matches, command_navigation_event,
    command_palette_key_outcome, command_row_text, disabled_query_text, filtered_indices,
    normalized_filtered_selection,
};
pub use composer::{
    ComposerHistory, ComposerHistoryEntry, ComposerHistoryEntryId, ComposerOverflowPolicy,
    ComposerState, DuplicateComposerHistoryEntryId, composer_changed_state,
    composer_has_history_previous, composer_history_next, composer_history_previous,
    lemma_history_next_moves_one_newer, lemma_history_previous_then_next_returns,
    lemma_history_recall_round_trip,
};
pub use composer_limits::{
    ComposerLengthLimit, ComposerLengthUnit, TextAreaInsertionDecision, composer_insertion_decision,
    composer_visible_rows, lemma_truncation_keeps_longest_fit,
};
pub use dialog::{ConfirmDialogDefault, dialog_action_rows, lemma_dialog_action_rows};
pub use diff::{
    lemma_diff_byte_count_is_text_length, lemma_diff_lines_check_totals,
    DEFAULT_DIFF_DOCUMENT_MAX_LINES, DEFAULT_DIFF_DOCUMENT_MAX_SPANS,
    DEFAULT_DIFF_DOCUMENT_MAX_TEXT_BYTES, DiffDocument, DiffDocumentError, DiffDocumentErrorKind,
    DiffDocumentLimits, DiffHunk, DiffLine, DiffLineKind, DiffRange, DiffSide,
    InvalidDiffLineNumber, InvalidDiffRange, InvalidDiffRangeKind, check_document_limit,
    map_code_document_error, validate_line_number,
};
pub use diff_layout::{
    DiffLayout, DiffLayoutError, DiffLayoutErrorKind, DiffLayoutLimits, DiffLayoutOptions,
    diff_layout_widths,
};
pub use diff_view::{
    DiffCopyKind, DiffCopyRequest, DiffViewState, diff_copy_actions_enabled, diff_copy_request,
    diff_gutter_text, diff_line_number,
};
pub use drawer::DrawerSide;
pub use event::{
    InputEvent, KeyAction, KeyCode, KeyEvent, Modifiers, MouseButton, MouseKind,
    is_activation_event, usable_key,
};
pub use file_picker::{
    FilePickerAction, FilePickerEntry, FilePickerOutcome, file_picker_action_enabled,
    file_picker_action_outcome,
    file_picker_pointer_outcome, has_visible_entries, normalized_selection, position_for_action,
    viewport_range, visible_indices,
};
pub use glyphs::{
    lemma_spinner_cycles_every_ten_ticks, render_sparkline, sparkline_bounds, spinner_text,
};
pub use help::{HelpBinding, HelpMode};
pub use json::{
    DEFAULT_JSON_DOCUMENT_MAX_DEPTH, DEFAULT_JSON_DOCUMENT_MAX_NODES,
    DEFAULT_JSON_DOCUMENT_MAX_SERIALIZED_BYTES, DEFAULT_JSON_DOCUMENT_MAX_STRING_BYTES,
    DuplicateJsonKey, InvalidJsonNumber, InvalidJsonPointer, JsonKind, JsonMember, JsonNumber,
    JsonPointer, JsonValue, MAX_JSON_DOCUMENT_DEPTH,
};
pub use json_document::{
    JsonDocumentError, JsonDocumentErrorKind, JsonDocumentLimits, lemma_json_document_error_fields,
};
pub use json_inspector::{
    JsonInspectorAction, JsonInspectorCopyRequest, JsonInspectorState, JsonRowRole, JsonRowSegment,
    escape_json_string_content, is_blocked_initial_only_repeat, is_branch, is_expanded_branch,
    json_copy_request, json_row_segments, last_visible, lemma_activate_twice_restores, next_visible,
    normalize_state, normalize_visible_index, previous_visible, select_index, state_for_action,
    state_for_pointer, visible_window,
};
pub use json_nodes::{
    JsonDocument, JsonNode, JsonNodes, array_child_path, lemma_document_node_children,
    lemma_document_node_joins, lemma_document_node_parents, lemma_document_paths_distinct,
    lemma_document_node_serializations,
    lemma_document_nodes_shape,
    object_child_path,
};
pub use list::{
    CollectionAction, ListItem, collection_action_selection, label_contains, list_has_visible_items,
    list_item_matches, list_navigation_target, list_visible_indices, list_window,
    normalized_list_selection, selection_outside_rows, virtual_row_range,
};
pub use navigation::{Navigation, navigate, normalize_selection};
pub use paginator::{
    PaginatorAction, PaginatorMode, lemma_paginator_window_shape, normalized_page, page_for_action,
    paginator_window,
};
pub use scale::{
    ChartPoint, ScrollbarOrientation, chart_bounds, chart_scale, completed_cells, normalized_bounds,
    lemma_thumb_length_follows_visible_share, lemma_thumb_start_follows_offset, scaled_bar_cells, scaled_level, thumb_geometry,
};
pub use selectable_text::{
    SelectableTextAction, SelectableTextContent, SelectableTextState, TextCopyKind, TextCopyRequest,
    current_line, lemma_next_word_stops_after_blank, lemma_previous_word_stops_at_word_start, lemma_normalize_text_state_idempotent,
    next_cursor, next_word,
    pointer_press_state, pointer_selection_offset, previous_cursor, previous_word,
    selectable_text_state_for_action, text_copy_request,
};
pub use split_pane::{
    SPLIT_PANE_RATIO_SCALE, SplitPaneState, lemma_pointer_ratio_round_trip, pointer_ratio,
    split_divider_position,
};
pub use status_bar::{StatusBarPriority, lemma_priority_order};
pub use suggestion::{
    DuplicateSuggestionId, SuggestionId, SuggestionItems, SuggestionPopupStatus,
    SuggestionRowContext, normalized_suggestion_selection, suggestion_window,
};
pub use suggestion_rows::{
    lemma_suggestion_row_ids_distinct, suggestion_blocked_repeat, suggestion_row_id,
};
pub use text_area::TextAreaState;
pub use widget_text::{
    RowRole, row_role, SelectAction, bar_cells, bar_chart_maximum, button_text, checkbox_text, column_width,
    disclosure_marker, file_entry_text, padded_text, radio_text, select_action_selection,
    lemma_bar_chart_maximum_is_largest, select_text,
};
