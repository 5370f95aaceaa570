use commedit_gtk::diff_cues::{cue, CueKind};
use commedit_gtk::gutter::{
    cell_content, column_number, column_width, is_active, widest_number, CellContent,
};
use commedit_gtk::linenums::{DiffLineNo, NumColumn};

fn no(old: Option<u32>, new: Option<u32>) -> DiffLineNo {
    DiffLineNo { old, new }
}

#[test]
fn a_column_takes_its_own_number() {
    let n = no(Some(7), None);
    assert_eq!(column_number(NumColumn::Old, n), Some(7));
    assert_eq!(column_number(NumColumn::New, n), None);
}

#[test]
fn a_button_gives_way_to_a_number_unless_hovered() {
    let numbers = [no(None, None), no(Some(4), Some(4)), no(Some(5), None)];
    let cues = [
        Some(cue(CueKind::RevertFile)),
        Some(cue(CueKind::RevertHunk)),
        None,
    ];
    let cell = |hover, line| cell_content(&numbers, &cues, NumColumn::New, hover, line);
    assert_eq!(cell(None, 0), CellContent::Cue);
    assert_eq!(cell(None, 1), CellContent::Number(4));
    assert_eq!(cell(Some(1), 1), CellContent::Cue);
    assert_eq!(cell(Some(0), 1), CellContent::Number(4));
    assert_eq!(cell(Some(2), 2), CellContent::Blank);
    assert_eq!(cell(Some(9), 9), CellContent::Blank);
    assert!(is_active(&cues, 1));
    assert!(!is_active(&cues, 2));
    assert!(!is_active(&cues, 3));
}

#[test]
fn a_column_is_as_wide_as_its_widest_cell() {
    let numbers = [no(Some(9), Some(12)), no(Some(130), None), no(None, None)];
    assert_eq!(widest_number(&numbers, NumColumn::Old), 130);
    assert_eq!(widest_number(&numbers, NumColumn::New), 12);
    assert_eq!(widest_number(&[], NumColumn::New), 0);
    // Three digits of 8 pixels and 4 pixels on either side.
    assert_eq!(column_width(130, 8, 0), 32);
    // A glyph of 10 pixels and 6 pixels on either side.
    assert_eq!(column_width(0, 8, 10), 22);
    assert_eq!(column_width(130, 8, 10), 32);
    assert_eq!(column_width(5, 8, 10), 22);
    assert_eq!(column_width(0, 8, 0), 0);
}
