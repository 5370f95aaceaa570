//! The colours of a diff and of a conflict: what to paint on which line, from the
//! kinds of the lines and the colours of their code.
//!
//! The parser behind the language colours starts anew at every boundary between
//! regions that do not follow each other in a file, so that none bleeds into the next.
use crate::indices;
use crate::conflict;
use crate::conflict::{CONFLICT_ELISION_LINE, CONFLICT_STRUCTURAL_NOTICE};
use crate::ink;
use crate::ink::{Palette, Span};
use crate::model::{ConflictLineKind, DiffLine, DiffLineKind};
use crate::numbers;
use crate::paths;
use crate::text;
use vstd::prelude::*;

verus! {

/// A tag on a line: on all of it, or on the columns from the first up to the second.
#[derive(Clone, Debug, PartialEq, Eq)]
pub struct Paint {
    pub line: usize,
    pub cols: Option<(usize, usize)>,
    pub tag: String,
}

/// What a [`Paint`] paints.
pub ghost struct PaintText {
    pub line: int,
    pub cols: Option<(int, int)>,
    pub tag: Seq<char>,
}

impl View for Paint {
    type V = PaintText;

    open spec fn view(&self) -> PaintText {
        PaintText {
            line: self.line as int,
            cols: match self.cols {
                Some(c) => Some((c.0 as int, c.1 as int)),
                None => None,
            },
            tag: self.tag@,
        }
    }
}

/// The views of a list of paints.
pub open spec fn paints(v: Seq<Paint>) -> Seq<PaintText> {
    v.map_values(|p: Paint| p@)
}

/// A tag on a whole line.
pub open spec fn on_line(line: int, tag: Seq<char>) -> PaintText {
    PaintText { line, cols: None, tag }
}

/// A tag on some columns of a line.
pub open spec fn on_cols(line: int, from: int, to: int, tag: Seq<char>) -> PaintText {
    PaintText { line, cols: Some((from, to)), tag }
}

fn paint_line(out: &mut Vec<Paint>, line: usize, tag: &str)
    ensures
        paints(final(out)@) == paints(old(out)@).push(on_line(line as int, tag@)),
{
    let ghost before = paints(out@);
    out.push(Paint { line, cols: None, tag: tag.to_string() });
    assert(paints(out@) =~= before.push(on_line(line as int, tag@)));
}

fn paint_cols(out: &mut Vec<Paint>, line: usize, from: usize, to: usize, tag: String)
    ensures
        paints(final(out)@) == paints(old(out)@).push(
            on_cols(line as int, from as int, to as int, tag@),
        ),
{
    let ghost before = paints(out@);
    let ghost t = tag@;
    out.push(Paint { line, cols: Some((from, to)), tag });
    assert(paints(out@) =~= before.push(on_cols(line as int, from as int, to as int, t)));
}

/// The background tag of a diff line; context has none.
pub open spec fn diff_background(kind: DiffLineKind) -> Option<Seq<char>> {
    match kind {
        DiffLineKind::Added => Some("add-line"@),
        DiffLineKind::Removed => Some("del-line"@),
        DiffLineKind::Hunk => Some("hunk"@),
        DiffLineKind::Header => Some("meta"@),
        DiffLineKind::Meta => Some("meta"@),
        DiffLineKind::Context => None,
    }
}

/// The background tag of a diff line.
pub fn line_bg_tag(kind: DiffLineKind) -> (r: Option<&'static str>)
    ensures
        match r {
            Some(t) => diff_background(kind) == Some(t@),
            None => diff_background(kind) is None,
        },
{
    match kind {
        DiffLineKind::Added => Some("add-line"),
        DiffLineKind::Removed => Some("del-line"),
        DiffLineKind::Hunk => Some("hunk"),
        DiffLineKind::Header => Some("meta"),
        DiffLineKind::Meta => Some("meta"),
        DiffLineKind::Context => None,
    }
}

/// The background tag of a line of a conflict; a line outside every block has none.
pub open spec fn conflict_background(kind: ConflictLineKind) -> Option<Seq<char>> {
    match kind {
        ConflictLineKind::Ours => Some("ours-line"@),
        ConflictLineKind::Theirs => Some("theirs-line"@),
        ConflictLineKind::Base => Some("base-line"@),
        ConflictLineKind::Plain => None,
        _ => Some("conflict-marker"@),
    }
}

/// The background tag of a line of a conflict.
pub fn conflict_bg_tag(kind: ConflictLineKind) -> (r: Option<&'static str>)
    ensures
        match r {
            Some(t) => conflict_background(kind) == Some(t@),
            None => conflict_background(kind) is None,
        },
{
    match kind {
        ConflictLineKind::Ours => Some("ours-line"),
        ConflictLineKind::Theirs => Some("theirs-line"),
        ConflictLineKind::Base => Some("base-line"),
        ConflictLineKind::Plain => None,
        _ => Some("conflict-marker"),
    }
}

/// A byte as two hexadecimal digits.
pub open spec fn hex_byte(b: u8) -> Seq<char> {
    seq![numbers::hex_digit(b as int / 16), numbers::hex_digit(b as int % 16)]
}

/// The tag of a text colour, which holds the colour as `#rrggbb`.
pub open spec fn color_tag(color: (u8, u8, u8)) -> Seq<char> {
    "fg#"@ + hex_byte(color.0) + hex_byte(color.1) + hex_byte(color.2)
}

/// Writes `b` as two hexadecimal digits.
fn write_hex(out: &mut Vec<char>, b: u8)
    ensures
        final(out)@ == old(out)@ + hex_byte(b),
{
    let ghost before = out@;
    out.push(numbers::write_hex_digit(b / 16));
    out.push(numbers::write_hex_digit(b % 16));
    assert(out@ =~= before + hex_byte(b));
}

/// The tag of a text colour.
pub fn fg_tag_name(red: u8, green: u8, blue: u8) -> (r: String)
    ensures
        r@ == color_tag((red, green, blue)),
{
    let mut out = text::chars_of("fg#");
    write_hex(&mut out, red);
    write_hex(&mut out, green);
    write_hex(&mut out, blue);
    text::string_of(&out)
}

/// The colours of the code of a line, which is `n` characters long and begins at
/// column `prefix`: each span paints its own text, as far as the code goes.
pub open spec fn span_paints(line: int, prefix: int, n: int, v: Seq<ink::SpanText>) -> Seq<PaintText>
    decreases v.len(),
{
    if v.len() == 0 {
        Seq::<PaintText>::empty()
    } else {
        let from = within(ink::covered(v.drop_last()).len() as int, n);
        let to = within(ink::covered(v).len() as int, n);
        let init = span_paints(line, prefix, n, v.drop_last());
        if from < to {
            init.push(on_cols(line, prefix + from, prefix + to, color_tag(v.last().color)))
        } else {
            init
        }
    }
}

/// `k`, but no more than `n`.
pub open spec fn within(k: int, n: int) -> int {
    if k < n {
        k
    } else {
        n
    }
}

/// Adds the colours of the code of a line.
pub fn apply_code_spans(
    out: &mut Vec<Paint>,
    line: usize,
    prefix: usize,
    code: &Vec<char>,
    spans: &Vec<Span>,
)
    requires
        prefix + code@.len() <= usize::MAX,
    ensures
        paints(final(out)@) == paints(old(out)@) + span_paints(
            line as int,
            prefix as int,
            code@.len() as int,
            ink::span_texts(spans@),
        ),
{
    let ghost before = paints(out@);
    let ghost gs = ink::span_texts(spans@);
    let n: usize = code.len();
    let mut at: usize = 0;
    let mut i: usize = 0;
    assert(ink::covered(gs.take(0)).len() == 0);
    assert(before + span_paints(line as int, prefix as int, n as int, gs.take(0)) =~= before);
    while i < spans.len() && at < n
        invariant
            i <= spans@.len(),
            gs == ink::span_texts(spans@),
            n == code@.len(),
            prefix + n <= usize::MAX,
            at == within(ink::covered(gs.take(i as int)).len() as int, n as int),
            paints(out@) == before + span_paints(
                line as int,
                prefix as int,
                n as int,
                gs.take(i as int),
            ),
        decreases spans.len() - i,
    {
        let ghost v = gs.take(i + 1);
        assert(v.drop_last() =~= gs.take(i as int));
        assert(v.last() == spans@[i as int]@);
        let piece = text::chars_of(spans[i].text.as_str());
        let len: usize = if piece.len() < n - at {
            piece.len()
        } else {
            n - at
        };
        let ghost o0 = paints(out@);
        if len > 0 {
            let tag = fg_tag_name(spans[i].red, spans[i].green, spans[i].blue);
            paint_cols(out, line, prefix + at, prefix + at + len, tag);
            assert(paints(out@) =~= before + span_paints(
                line as int,
                prefix as int,
                n as int,
                v,
            ));
        }
        at += len;
        i += 1;
    }
    proof {
        if at == n {
            lemma_no_paint_beyond(line as int, prefix as int, n as int, gs, i as int);
        } else {
            assert(gs.take(i as int) =~= gs);
        }
    }
}

proof fn lemma_no_paint_beyond(line: int, prefix: int, n: int, v: Seq<ink::SpanText>, i: int)
    requires
        0 <= i <= v.len(),
        ink::covered(v.take(i)).len() >= n,
    ensures
        span_paints(line, prefix, n, v) == span_paints(line, prefix, n, v.take(i)),
        ink::covered(v).len() >= n,
    decreases v.len(),
{
    if i == v.len() {
        assert(v.take(i) =~= v);
    } else {
        assert(v.drop_last().take(i) =~= v.take(i));
        lemma_no_paint_beyond(line, prefix, n, v.drop_last(), i);
    }
}

/// How many characters of `s` stand before its trailing spaces and tabs.
pub open spec fn ink_end(s: Seq<char>) -> int
    decreases s.len(),
{
    if s.len() > 0 && (s.last() == ' ' || s.last() == '\t') {
        ink_end(s.drop_last())
    } else {
        s.len() as int
    }
}

/// The mark on the spaces and tabs at the end of a line.
pub open spec fn trailing_paints(line: int, prefix: int, code: Seq<char>) -> Seq<PaintText> {
    if ink_end(code) < code.len() {
        seq![on_cols(line, prefix + ink_end(code), prefix + code.len(), "trailing-ws"@)]
    } else {
        Seq::<PaintText>::empty()
    }
}

/// Adds the mark on the spaces and tabs at the end of a line's code.
pub fn apply_trailing_ws(out: &mut Vec<Paint>, line: usize, prefix: usize, code: &Vec<char>)
    requires
        prefix + code@.len() <= usize::MAX,
    ensures
        paints(final(out)@) == paints(old(out)@) + trailing_paints(
            line as int,
            prefix as int,
            code@,
        ),
{
    let n: usize = code.len();
    let mut k: usize = n;
    assert(code@.take(n as int) =~= code@);
    while k > 0 && (code[k - 1] == ' ' || code[k - 1] == '\t')
        invariant
            k <= n,
            n == code@.len(),
            ink_end(code@) == ink_end(code@.take(k as int)),
        decreases k,
    {
        assert(code@.take(k as int).last() == code@[k - 1]);
        assert(code@.take(k as int).drop_last() =~= code@.take(k - 1));
        k -= 1;
    }
    assert(ink_end(code@) == k) by {
        if k > 0 {
            assert(code@.take(k as int).last() == code@[k - 1]);
        }
    }
    let ghost before = paints(out@);
    if k < n {
        paint_cols(out, line, prefix + k, prefix + n, "trailing-ws".to_string());
    }
    assert(paints(out@) =~= before + trailing_paints(line as int, prefix as int, code@));
}

/// How many bytes a character takes.
pub open spec fn width(c: char) -> int {
    let u = c as u32;
    if u < 0x80 {
        1
    } else if u < 0x800 {
        2
    } else if u < 0x10000 {
        3
    } else {
        4
    }
}

/// How many bytes a text takes.
pub open spec fn byte_len(s: Seq<char>) -> int
    decreases s.len(),
{
    if s.len() == 0 {
        0
    } else {
        byte_len(s.drop_last()) + width(s.last())
    }
}

/// Whether the character at index `k` of `s` begins at byte `b`; the end counts as one.
pub open spec fn begins_at(s: Seq<char>, k: int, b: int) -> bool {
    0 <= k <= s.len() && byte_len(s.take(k)) == b
}

/// Whether byte `b` of `s` is where a character begins, or the end.
pub open spec fn is_boundary(s: Seq<char>, b: int) -> bool {
    exists|k: int| #[trigger] begins_at(s, k, b)
}

/// The index of the character of `s` that begins at byte `b`.
pub open spec fn char_at_byte(s: Seq<char>, b: int) -> int {
    choose|k: int| #[trigger] begins_at(s, k, b)
}

proof fn lemma_byte_len_grows(s: Seq<char>, i: int, j: int)
    requires
        0 <= i < j <= s.len(),
    ensures
        byte_len(s.take(i)) < byte_len(s.take(j)),
    decreases j - i,
{
    assert(s.take(j).drop_last() =~= s.take(j - 1));
    if i < j - 1 {
        lemma_byte_len_grows(s, i, j - 1);
    }
}

fn index_of_byte(code: &Vec<char>, b: usize) -> (r: usize)
    requires
        is_boundary(code@, b as int),
    ensures
        r == char_at_byte(code@, b as int),
        r <= code@.len(),
{
    let ghost k = char_at_byte(code@, b as int);
    assert(begins_at(code@, k, b as int));
    let n: usize = code.len();
    let mut i: usize = 0;
    let mut bytes: usize = 0;
    assert(byte_len(code@.take(0)) == 0);
    while bytes < b
        invariant
            i <= k,
            k <= n,
            n == code@.len(),
            begins_at(code@, k, b as int),
            bytes == byte_len(code@.take(i as int)),
            bytes <= b,
        decreases k - i,
    {
        proof {
            if i == k {
                assert(bytes == b);
            }
            assert(code@.take(i + 1).drop_last() =~= code@.take(i as int));
            assert(code@.take(i + 1).last() == code@[i as int]);
            if i + 1 < k {
                lemma_byte_len_grows(code@, i + 1, k);
            }
        }
        let u: u32 = code[i] as u32;
        bytes += if u < 0x80 {
            1
        } else if u < 0x800 {
            2
        } else if u < 0x10000 {
            3
        } else {
            4
        };
        i += 1;
    }
    proof {
        if i < k {
            lemma_byte_len_grows(code@, i as int, k);
        }
    }
    i
}

/// The emphasis of the ranges that differ from the line's counterpart.
pub open spec fn word_paints(
    line: int,
    prefix: int,
    code: Seq<char>,
    intra: Seq<(usize, usize)>,
    tag: Seq<char>,
) -> Seq<PaintText> {
    intra.map_values(
        |r: (usize, usize)|
            on_cols(
                line,
                prefix + char_at_byte(code, r.0 as int),
                prefix + char_at_byte(code, r.1 as int),
                tag,
            ),
    )
}

/// Whether the ranges lie between characters of the code.
pub open spec fn ranges_fit(code: Seq<char>, intra: Seq<(usize, usize)>) -> bool {
    forall|i: int|
        0 <= i < intra.len() ==> is_boundary(code, (#[trigger] intra[i]).0 as int) && is_boundary(
            code,
            intra[i].1 as int,
        )
}

fn apply_words(
    out: &mut Vec<Paint>,
    line: usize,
    prefix: usize,
    code: &Vec<char>,
    intra: &Vec<(usize, usize)>,
    tag: &str,
)
    requires
        prefix + code@.len() <= usize::MAX,
        ranges_fit(code@, intra@),
    ensures
        paints(final(out)@) == paints(old(out)@) + word_paints(
            line as int,
            prefix as int,
            code@,
            intra@,
            tag@,
        ),
{
    let ghost before = paints(out@);
    let ghost all = word_paints(line as int, prefix as int, code@, intra@, tag@);
    let mut i: usize = 0;
    assert(before + all.take(0) =~= before);
    while i < intra.len()
        invariant
            i <= intra@.len(),
            prefix + code@.len() <= usize::MAX,
            ranges_fit(code@, intra@),
            all == word_paints(line as int, prefix as int, code@, intra@, tag@),
            paints(out@) == before + all.take(i as int),
        decreases intra.len() - i,
    {
        let (s, e) = intra[i];
        assert(intra@[i as int] == (s, e));
        let from: usize = index_of_byte(code, s);
        let to: usize = index_of_byte(code, e);
        paint_cols(out, line, prefix + from, prefix + to, tag.to_string());
        assert(paints(out@) =~= before + all.take(i + 1));
        i += 1;
    }
    assert(all.take(i as int) =~= all);
}

/// The language of a file by its extension; plain text for one that is not known.
pub open spec fn language_of(path: Seq<char>) -> Seq<char> {
    match paths::extension(path) {
        Some(e) => match ink::bundled_language(e) {
            Some(l) => l,
            None => "Plain Text"@,
        },
        None => "Plain Text"@,
    }
}

/// The language of a file, plain text where none is given.
pub open spec fn path_language(path: Option<Seq<char>>) -> Seq<char> {
    match path {
        Some(p) => language_of(p),
        None => "Plain Text"@,
    }
}

fn pick<'a>(palette: &'a Palette, path: &str) -> (r: &'a syntect::parsing::SyntaxReference)
    ensures
        ink::syntax_name(*r) == language_of(path@),
{
    match paths::extension_of(path) {
        Some(e) => match ink::find_by_extension(palette, e.as_str()) {
            Some(s) => s,
            None => ink::plain_text(palette),
        },
        None => ink::plain_text(palette),
    }
}

/// The view of an optional path.
pub open spec fn opt_str(path: Option<&str>) -> Option<Seq<char>> {
    match path {
        Some(p) => Some(p@),
        None => None,
    }
}

fn pick_first<'a>(palette: &'a Palette, path: Option<&str>) -> (r: &'a syntect::parsing::SyntaxReference)
    ensures
        ink::syntax_name(*r) == path_language(opt_str(path)),
{
    match path {
        Some(p) => pick(palette, p),
        None => ink::plain_text(palette),
    }
}

/// The file that a line of a header begins, if it names one.
pub open spec fn section_path(raw: Seq<char>) -> Option<Seq<char>> {
    if "--- a/"@.is_prefix_of(raw) {
        Some(raw.skip(6))
    } else {
        None
    }
}

/// The code of a diff line: all behind the marker in its first column.
pub open spec fn code_of(raw: Seq<char>) -> Seq<char> {
    if raw.len() == 0 {
        raw
    } else {
        raw.skip(1)
    }
}

/// The column at which the code of a diff line begins.
pub open spec fn code_start(raw: Seq<char>) -> int {
    if raw.len() == 0 {
        0
    } else {
        1
    }
}

/// The language in force at line `i` of a diff: that of the last file header before.
pub open spec fn language_at(
    lines: Seq<Seq<char>>,
    diff: Seq<DiffLine>,
    path: Option<Seq<char>>,
    i: int,
) -> Seq<char>
    decreases i,
{
    if i <= 0 {
        path_language(path)
    } else if diff[i - 1].kind == DiffLineKind::Header && section_path(lines[i - 1]) is Some {
        language_of(section_path(lines[i - 1])->0)
    } else {
        language_at(lines, diff, path, i - 1)
    }
}

/// Whether line `i` of a diff begins a region of its own: a hunk or a file.
pub open spec fn starts_region(lines: Seq<Seq<char>>, diff: Seq<DiffLine>, i: int) -> bool {
    diff[i].kind == DiffLineKind::Hunk || (diff[i].kind == DiffLineKind::Header && section_path(
        lines[i],
    ) is Some)
}

/// Whether a line belongs to the old side of a diff, or to the new side.
pub open spec fn on_side(kind: DiffLineKind, old_side: bool) -> bool {
    match kind {
        DiffLineKind::Context => true,
        DiffLineKind::Removed => old_side,
        DiffLineKind::Added => !old_side,
        _ => false,
    }
}

/// The code of one side of a diff before line `i`, back to where its region begins.
pub open spec fn side_before(
    lines: Seq<Seq<char>>,
    diff: Seq<DiffLine>,
    i: int,
    old_side: bool,
) -> Seq<Seq<char>>
    decreases i,
{
    if i <= 0 || starts_region(lines, diff, i - 1) {
        Seq::<Seq<char>>::empty()
    } else if on_side(diff[i - 1].kind, old_side) {
        side_before(lines, diff, i - 1, old_side).push(code_of(lines[i - 1]).push('\n'))
    } else {
        side_before(lines, diff, i - 1, old_side)
    }
}

/// The background of a diff line.
pub open spec fn background_paints(line: int, kind: DiffLineKind) -> Seq<PaintText> {
    match diff_background(kind) {
        Some(t) => seq![on_line(line, t)],
        None => Seq::<PaintText>::empty(),
    }
}

/// Whether a diff line holds code.
pub open spec fn holds_code(kind: DiffLineKind) -> bool {
    kind == DiffLineKind::Context || kind == DiffLineKind::Added || kind == DiffLineKind::Removed
}

/// The language colours of a line of code that comes after the lines `before`.
pub open spec fn code_paints(
    line: int,
    prefix: int,
    code: Seq<char>,
    language: Seq<char>,
    before: Seq<Seq<char>>,
) -> Seq<PaintText> {
    match ink::line_colors(language, ink::THEME_NAME@, before, code.push('\n')) {
        Some(spans) => span_paints(line, prefix, code.len() as int, spans),
        None => Seq::<PaintText>::empty(),
    }
}

/// The tag of the ranges that differ.
pub open spec fn word_tag(kind: DiffLineKind) -> Seq<char> {
    if kind == DiffLineKind::Added {
        "add-word"@
    } else {
        "del-word"@
    }
}

/// The mark on trailing blanks, which only added lines get.
pub open spec fn blank_paints(line: int, raw: Seq<char>, kind: DiffLineKind) -> Seq<PaintText> {
    if kind == DiffLineKind::Added {
        trailing_paints(line, code_start(raw), code_of(raw))
    } else {
        Seq::<PaintText>::empty()
    }
}

/// All that is painted on a diff line.
pub open spec fn diff_line_paints(
    line: int,
    raw: Seq<char>,
    kind: DiffLineKind,
    intra: Seq<(usize, usize)>,
    language: Seq<char>,
    before: Seq<Seq<char>>,
) -> Seq<PaintText> {
    let code = code_of(raw);
    let at = code_start(raw);
    if holds_code(kind) {
        background_paints(line, kind) + code_paints(line, at, code, language, before) + word_paints(
            line,
            at,
            code,
            intra,
            word_tag(kind),
        ) + blank_paints(line, raw, kind)
    } else {
        background_paints(line, kind)
    }
}

/// All that is painted on line `i` of a diff. A removed line is coloured after the
/// old side, all others after the new side.
pub open spec fn diff_paints_at(
    lines: Seq<Seq<char>>,
    diff: Seq<DiffLine>,
    path: Option<Seq<char>>,
    i: int,
) -> Seq<PaintText> {
    diff_line_paints(
        i,
        lines[i],
        diff[i].kind,
        diff[i].intra@,
        language_at(lines, diff, path, i),
        side_before(lines, diff, i, diff[i].kind == DiffLineKind::Removed),
    )
}

/// All that is painted on the first `n` lines of a diff.
pub open spec fn diff_paints(
    lines: Seq<Seq<char>>,
    diff: Seq<DiffLine>,
    path: Option<Seq<char>>,
    n: int,
) -> Seq<PaintText>
    decreases n,
{
    if n <= 0 {
        Seq::<PaintText>::empty()
    } else {
        diff_paints(lines, diff, path, n - 1) + diff_paints_at(lines, diff, path, n - 1)
    }
}

fn code_chars(raw: &Vec<char>) -> (r: Vec<char>)
    ensures
        r@ == code_of(raw@),
        code_start(raw@) + r@.len() == raw@.len(),
{
    let n: usize = raw.len();
    if n == 0 {
        text::copy_of(raw)
    } else {
        let r = text::slice_of(raw, 1, n);
        assert(r@ =~= raw@.skip(1));
        r
    }
}

fn paint_background(out: &mut Vec<Paint>, line: usize, kind: DiffLineKind)
    ensures
        paints(final(out)@) == paints(old(out)@) + background_paints(line as int, kind),
{
    let ghost before = paints(out@);
    if let Some(tag) = line_bg_tag(kind) {
        paint_line(out, line, tag);
    }
    assert(paints(out@) =~= before + background_paints(line as int, kind));
}

fn section_in(raw: &Vec<char>) -> (r: Option<String>)
    ensures
        text::opt_text(r) == section_path(raw@),
{
    proof {
        reveal_strlit("--- a/");
    }
    if text::starts_with(raw, "--- a/") {
        let n: usize = raw.len();
        let rest = text::slice_of(raw, 6, n);
        assert(rest@ =~= raw@.skip(6));
        Some(text::string_of(&rest))
    } else {
        None
    }
}

fn with_newline(code: &Vec<char>) -> (r: String)
    ensures
        r@ == code@.push('\n'),
{
    let mut owned = text::copy_of(code);
    owned.push('\n');
    text::string_of(&owned)
}

/// What to paint on a diff, given the kinds of its lines. The language is that of
/// the file whose section a line stands in, and before the first section that of
/// `path`.
pub fn highlight_diff(palette: &Palette, text: &str, diff: &[DiffLine], path: Option<&str>) -> (r:
    Vec<Paint>)
    requires
        diff@.len() <= text::lines(text@).len(),
        forall|i: int|
            0 <= i < diff@.len() && holds_code((#[trigger] diff@[i]).kind) ==> ranges_fit(
                code_of(text::lines(text@)[i]),
                diff@[i].intra@,
            ),
    ensures
        paints(r@) == diff_paints(
            text::lines(text@),
            diff@,
            opt_str(path),
            diff@.len() as int,
        ),
{
    let lines = text::lines_of(text);
    let ghost gl = text::deep(lines@);
    let ghost gp = opt_str(path);
    let mut syntax = pick_first(palette, path);
    let mut old_ink = ink::start_lines(palette, syntax);
    let mut new_ink = ink::start_lines(palette, syntax);
    let mut out: Vec<Paint> = Vec::new();
    let mut i: usize = 0;
    assert(paints(out@) =~= Seq::<PaintText>::empty());
    while i < diff.len()
        invariant
            i <= diff@.len(),
            gl == text::deep(lines@),
            gl == text::lines(text@),
            gp == opt_str(path),
            diff@.len() <= gl.len(),
            forall|j: int|
                0 <= j < diff@.len() && holds_code((#[trigger] diff@[j]).kind) ==> ranges_fit(
                    code_of(gl[j]),
                    diff@[j].intra@,
                ),
            ink::syntax_name(*syntax) == language_at(gl, diff@, gp, i as int),
            ink::coloured(old_ink) == (
                language_at(gl, diff@, gp, i as int),
                ink::THEME_NAME@,
                side_before(gl, diff@, i as int, true),
            ),
            ink::coloured(new_ink) == (
                language_at(gl, diff@, gp, i as int),
                ink::THEME_NAME@,
                side_before(gl, diff@, i as int, false),
            ),
            paints(out@) == diff_paints(gl, diff@, gp, i as int),
        decreases diff.len() - i,
    {
        let ghost o0 = paints(out@);
        let raw = &lines[i];
        assert(gl[i as int] == raw@);
        let kind = diff[i].kind;
        paint_background(&mut out, i, kind);
        match kind {
            DiffLineKind::Hunk => {
                old_ink = ink::start_lines(palette, syntax);
                new_ink = ink::start_lines(palette, syntax);
            },
            DiffLineKind::Header => {
                if let Some(p) = section_in(raw) {
                    syntax = pick(palette, p.as_str());
                    old_ink = ink::start_lines(palette, syntax);
                    new_ink = ink::start_lines(palette, syntax);
                }
            },
            DiffLineKind::Meta => {},
            _ => {
                let prefix: usize = if raw.len() == 0 {
                    0
                } else {
                    1
                };
                let code = code_chars(raw);
                let owned = with_newline(&code);
                let spans = match kind {
                    DiffLineKind::Removed => ink::next_line(palette, &mut old_ink, owned.as_str()),
                    DiffLineKind::Added => ink::next_line(palette, &mut new_ink, owned.as_str()),
                    _ => {
                        let _ = ink::next_line(palette, &mut old_ink, owned.as_str());
                        ink::next_line(palette, &mut new_ink, owned.as_str())
                    },
                };
                let ghost o1 = paints(out@);
                if let Some(spans) = spans {
                    apply_code_spans(&mut out, i, prefix, &code, &spans);
                }
                assert(paints(out@) =~= o1 + code_paints(
                    i as int,
                    prefix as int,
                    code@,
                    language_at(gl, diff@, gp, i as int),
                    side_before(gl, diff@, i as int, kind == DiffLineKind::Removed),
                ));
                let ghost o2 = paints(out@);
                let tag = if kind == DiffLineKind::Added {
                    "add-word"
                } else {
                    "del-word"
                };
                apply_words(&mut out, i, prefix, &code, &diff[i].intra, tag);
                let ghost o3 = paints(out@);
                if kind == DiffLineKind::Added {
                    apply_trailing_ws(&mut out, i, prefix, &code);
                }
                assert(paints(out@) =~= o3 + blank_paints(i as int, raw@, kind));
            },
        }
        assert(paints(out@) =~= o0 + diff_paints_at(gl, diff@, gp, i as int));
        i += 1;
    }
    out
}

/// A line of a buffer without its line break.
pub open spec fn without_newline(line: Seq<char>) -> Seq<char> {
    if line.len() > 0 && line.last() == '\n' {
        line.drop_last()
    } else {
        line
    }
}

/// What to paint on a single diff line while it is being edited: as the full pass
/// would, but as if it began its region, and without the emphasis of what differs.
/// A line without a kind counts as context.
pub fn highlight_diff_line(
    palette: &Palette,
    line: usize,
    text: &str,
    kind: Option<DiffLineKind>,
    path: Option<&str>,
) -> (r: Vec<Paint>)
    ensures
        paints(r@) == diff_line_paints(
            line as int,
            without_newline(text@),
            match kind {
                Some(k) => k,
                None => DiffLineKind::Context,
            },
            Seq::<(usize, usize)>::empty(),
            path_language(opt_str(path)),
            Seq::<Seq<char>>::empty(),
        ),
{
    let mut raw = text::chars_of(text);
    let n: usize = raw.len();
    if n > 0 && raw[n - 1] == '\n' {
        raw.truncate(n - 1);
        assert(raw@ =~= text@.drop_last());
    }
    let kind = match kind {
        Some(k) => k,
        None => DiffLineKind::Context,
    };
    let mut out: Vec<Paint> = Vec::new();
    assert(paints(out@) =~= Seq::<PaintText>::empty());
    paint_background(&mut out, line, kind);
    let ghost o1 = paints(out@);
    match kind {
        DiffLineKind::Hunk => {},
        DiffLineKind::Meta => {},
        DiffLineKind::Header => {},
        _ => {
            let syntax = pick_first(palette, path);
            let prefix: usize = if raw.len() == 0 {
                0
            } else {
                1
            };
            let code = code_chars(&raw);
            let owned = with_newline(&code);
            let mut state = ink::start_lines(palette, syntax);
            if let Some(spans) = ink::next_line(palette, &mut state, owned.as_str()) {
                apply_code_spans(&mut out, line, prefix, &code, &spans);
            }
            assert(paints(out@) =~= o1 + code_paints(
                line as int,
                prefix as int,
                code@,
                path_language(opt_str(path)),
                Seq::<Seq<char>>::empty(),
            ));
            let ghost o2 = paints(out@);
            if kind == DiffLineKind::Added {
                apply_trailing_ws(&mut out, line, prefix, &code);
            }
            assert(word_paints(
                line as int,
                prefix as int,
                code@,
                Seq::<(usize, usize)>::empty(),
                word_tag(kind),
            ) =~= Seq::<PaintText>::empty());
            assert(paints(out@) =~= o2 + blank_paints(line as int, raw@, kind));
        },
    }
    assert(paints(out@) =~= diff_line_paints(
        line as int,
        raw@,
        kind,
        Seq::<(usize, usize)>::empty(),
        path_language(opt_str(path)),
        Seq::<Seq<char>>::empty(),
    ));
    out
}

/// The text of line `i`, empty beyond the last.
pub open spec fn line_or_empty(lines: Seq<Seq<char>>, i: int) -> Seq<char> {
    if i < lines.len() {
        lines[i]
    } else {
        Seq::<char>::empty()
    }
}

/// The language in force at line `i` of a conflict: that of the last file header.
pub open spec fn conflict_language_at(
    lines: Seq<Seq<char>>,
    path: Option<Seq<char>>,
    i: int,
) -> Seq<char>
    decreases i,
{
    if i <= 0 {
        path_language(path)
    } else {
        match conflict::header_path(line_or_empty(lines, i - 1)) {
            Some(p) => language_of(p),
            None => conflict_language_at(lines, path, i - 1),
        }
    }
}

/// Whether a line of a conflict is a placeholder that stands for no line of a file.
pub open spec fn is_placeholder(raw: Seq<char>) -> bool {
    raw == CONFLICT_ELISION_LINE@ || raw == CONFLICT_STRUCTURAL_NOTICE@
}

/// The lines of a conflict before line `i`, back to the last file header or marker.
pub open spec fn conflict_before(
    lines: Seq<Seq<char>>,
    kinds: Seq<ConflictLineKind>,
    i: int,
) -> Seq<Seq<char>>
    decreases i,
{
    if i <= 0 {
        Seq::<Seq<char>>::empty()
    } else {
        let raw = line_or_empty(lines, i - 1);
        if conflict::header_path(raw) is Some {
            Seq::<Seq<char>>::empty()
        } else if is_placeholder(raw) {
            conflict_before(lines, kinds, i - 1)
        } else if conflict::is_marker_kind(kinds[i - 1]) {
            Seq::<Seq<char>>::empty()
        } else {
            conflict_before(lines, kinds, i - 1).push(raw.push('\n'))
        }
    }
}

/// All that is painted on line `i` of a conflict.
pub open spec fn conflict_paints_at(
    lines: Seq<Seq<char>>,
    kinds: Seq<ConflictLineKind>,
    path: Option<Seq<char>>,
    i: int,
) -> Seq<PaintText> {
    let raw = line_or_empty(lines, i);
    if conflict::header_path(raw) is Some {
        seq![on_line(i, "hunk"@)]
    } else if is_placeholder(raw) {
        seq![on_line(i, "meta"@)]
    } else {
        let ground = match conflict_background(kinds[i]) {
            Some(t) => seq![on_line(i, t)],
            None => Seq::<PaintText>::empty(),
        };
        if conflict::is_marker_kind(kinds[i]) {
            ground
        } else {
            ground + code_paints(
                i,
                0,
                raw,
                conflict_language_at(lines, path, i),
                conflict_before(lines, kinds, i),
            )
        }
    }
}

/// All that is painted on the first `n` lines of a conflict.
pub open spec fn conflict_paints(
    lines: Seq<Seq<char>>,
    kinds: Seq<ConflictLineKind>,
    path: Option<Seq<char>>,
    n: int,
) -> Seq<PaintText>
    decreases n,
{
    if n <= 0 {
        Seq::<PaintText>::empty()
    } else {
        conflict_paints(lines, kinds, path, n - 1) + conflict_paints_at(lines, kinds, path, n - 1)
    }
}

/// What to paint on a conflict, given what its lines belong to.
pub fn highlight_conflict(
    palette: &Palette,
    text: &str,
    kinds: &[ConflictLineKind],
    path: Option<&str>,
) -> (r: Vec<Paint>)
    ensures
        paints(r@) == conflict_paints(
            text::lines(text@),
            kinds@,
            opt_str(path),
            kinds@.len() as int,
        ),
{
    let lines = text::lines_of(text);
    let ghost gl = text::deep(lines@);
    let ghost gp = opt_str(path);
    let mut syntax = pick_first(palette, path);
    let mut state = ink::start_lines(palette, syntax);
    let mut out: Vec<Paint> = Vec::new();
    let mut i: usize = 0;
    assert(paints(out@) =~= Seq::<PaintText>::empty());
    while i < kinds.len()
        invariant
            i <= kinds@.len(),
            gl == text::deep(lines@),
            gl == text::lines(text@),
            gp == opt_str(path),
            ink::syntax_name(*syntax) == conflict_language_at(gl, gp, i as int),
            ink::coloured(state) == (
                conflict_language_at(gl, gp, i as int),
                ink::THEME_NAME@,
                conflict_before(gl, kinds@, i as int),
            ),
            paints(out@) == conflict_paints(gl, kinds@, gp, i as int),
        decreases kinds.len() - i,
    {
        let ghost o0 = paints(out@);
        let raw: Vec<char> = if i < lines.len() {
            assert(gl[i as int] == lines@[i as int]@);
            text::copy_of(&lines[i])
        } else {
            Vec::new()
        };
        assert(raw@ =~= line_or_empty(gl, i as int));
        let line = text::string_of(&raw);
        let kind = kinds[i];
        if let Some(p) = conflict::conflict_header_path(line.as_str()) {
            syntax = pick(palette, p);
            state = ink::start_lines(palette, syntax);
            paint_line(&mut out, i, "hunk");
        } else if text::same_text(line.as_str(), CONFLICT_ELISION_LINE) {
            paint_line(&mut out, i, "meta");
        } else if text::same_text(line.as_str(), CONFLICT_STRUCTURAL_NOTICE) {
            paint_line(&mut out, i, "meta");
        } else {
            if let Some(tag) = conflict_bg_tag(kind) {
                paint_line(&mut out, i, tag);
            }
            let ghost o1 = paints(out@);
            if is_marker(kind) {
                state = ink::start_lines(palette, syntax);
            } else {
                let owned = with_newline(&raw);
                if let Some(spans) = ink::next_line(palette, &mut state, owned.as_str()) {
                    let n: usize = raw.len();
                    assert(n == raw@.len());
                    apply_code_spans(&mut out, i, 0, &raw, &spans);
                }
                assert(paints(out@) =~= o1 + code_paints(
                    i as int,
                    0,
                    raw@,
                    conflict_language_at(gl, gp, i as int),
                    conflict_before(gl, kinds@, i as int),
                ));
            }
        }
        assert(paints(out@) =~= o0 + conflict_paints_at(gl, kinds@, gp, i as int));
        i += 1;
    }
    out
}

fn is_marker(kind: ConflictLineKind) -> (r: bool)
    ensures
        r == conflict::is_marker_kind(kind),
{
    match kind {
        ConflictLineKind::MarkerOurs => true,
        ConflictLineKind::MarkerBase => true,
        ConflictLineKind::MarkerSep => true,
        ConflictLineKind::MarkerTheirs => true,
        _ => false,
    }
}

/// What stands before a hunk header or a file header does not show in the colours
/// behind it: the lines of a region are coloured as if the diff began there.
pub proof fn law_regions_do_not_bleed(
    lines: Seq<Seq<char>>,
    diff: Seq<DiffLine>,
    start: int,
    i: int,
    old_side: bool,
)
    requires
        0 <= start < i < diff.len(),
        diff.len() <= lines.len(),
        starts_region(lines, diff, start),
    ensures
        side_before(lines, diff, i, old_side) == side_before(
            lines.skip(start),
            diff.skip(start),
            i - start,
            old_side,
        ),
    decreases i,
{
    let l = lines.skip(start);
    let d = diff.skip(start);
    assert(d[i - 1 - start] == diff[i - 1]);
    assert(l[i - 1 - start] == lines[i - 1]);
    if start < i - 1 {
        law_regions_do_not_bleed(lines, diff, start, i - 1, old_side);
    }
}

/// The lines of a file's section are coloured in the file's own language, whatever
/// stands before the section.
pub proof fn law_sections_have_their_own_language(
    lines: Seq<Seq<char>>,
    diff: Seq<DiffLine>,
    path: Option<Seq<char>>,
    start: int,
    i: int,
)
    requires
        0 <= start < i <= diff.len(),
        diff.len() <= lines.len(),
        diff[start].kind == DiffLineKind::Header,
        section_path(lines[start]) is Some,
        forall|j: int|
            start < j < i && (#[trigger] diff[j]).kind == DiffLineKind::Header ==> section_path(
                lines[j],
            ) is None,
    ensures
        language_at(lines, diff, path, i) == language_of(section_path(lines[start])->0),
    decreases i,
{
    if start < i - 1 {
        law_sections_have_their_own_language(lines, diff, path, start, i - 1);
        assert(diff[i - 1].kind == DiffLineKind::Header ==> section_path(lines[i - 1]) is None);
    }
}

/// The first of the painted columns.
pub open spec fn first_col(p: PaintText) -> int {
    match p.cols {
        Some(c) => c.0,
        None => 0,
    }
}

/// The column behind the painted ones.
pub open spec fn end_col(p: PaintText) -> int {
    match p.cols {
        Some(c) => c.1,
        None => 0,
    }
}

/// The language colours of a line follow each other without gap or overlap from the
/// first column of the code, stay within it, and reach its end where the spans do.
pub proof fn law_colours_cover_the_code(line: int, prefix: int, n: int, v: Seq<ink::SpanText>)
    requires
        n >= 0,
    ensures
        ({
            let p = span_paints(line, prefix, n, v);
            &&& forall|i: int|
                0 <= i < p.len() ==> (#[trigger] p[i]).line == line && p[i].cols is Some && prefix
                    <= first_col(p[i]) < end_col(p[i]) <= prefix + n
            &&& forall|i: int|
                1 <= i < p.len() ==> first_col(#[trigger] p[i]) == end_col(p[i - 1])
            &&& p.len() > 0 ==> first_col(p[0]) == prefix
            &&& p.len() > 0 ==> end_col(p.last()) == prefix + within(
                ink::covered(v).len() as int,
                n,
            )
            &&& p.len() == 0 <==> ink::covered(v).len() == 0 || n == 0
        }),
    decreases v.len(),
{
    if v.len() > 0 {
        law_colours_cover_the_code(line, prefix, n, v.drop_last());
    }
}

/// The mark on trailing blanks covers spaces and tabs alone, and what stands before
/// it does not end in one.
pub proof fn law_trailing_mark_is_exact(code: Seq<char>)
    ensures
        0 <= ink_end(code) <= code.len(),
        forall|i: int| ink_end(code) <= i < code.len() ==> code[i] == ' ' || code[i] == '\t',
        ink_end(code) > 0 ==> code[ink_end(code) - 1] != ' ' && code[ink_end(code) - 1] != '\t',
    decreases code.len(),
{
    if code.len() > 0 && (code.last() == ' ' || code.last() == '\t') {
        law_trailing_mark_is_exact(code.drop_last());
        assert forall|i: int| ink_end(code) <= i < code.len() implies code[i] == ' ' || code[i]
            == '\t' by {
            if i < code.len() - 1 {
                assert(code.drop_last()[i] == code[i]);
            }
        }
    }
}

/// Where the paints of line `i` stand among those of a diff.
proof fn lemma_paints_of_line(
    lines: Seq<Seq<char>>,
    diff: Seq<DiffLine>,
    path: Option<Seq<char>>,
    n: int,
    i: int,
)
    requires
        0 <= i < n,
    ensures
        ({
            let all = diff_paints(lines, diff, path, n);
            let at = diff_paints(lines, diff, path, i).len() as int;
            let own = diff_paints_at(lines, diff, path, i);
            &&& at + own.len() <= all.len()
            &&& forall|k: int| 0 <= k < own.len() ==> #[trigger] all[at + k] == own[k]
        }),
    decreases n,
{
    if i < n - 1 {
        lemma_paints_of_line(lines, diff, path, n - 1, i);
        let all = diff_paints(lines, diff, path, n);
        let init = diff_paints(lines, diff, path, n - 1);
        let at = diff_paints(lines, diff, path, i).len() as int;
        let own = diff_paints_at(lines, diff, path, i);
        assert forall|k: int| 0 <= k < own.len() implies #[trigger] all[at + k] == own[k] by {
            assert(all[at + k] == init[at + k]);
        }
    }
}

/// Whether the paints `v` tint all of `line` with `tag`.
pub open spec fn tints(v: Seq<Paint>, line: int, tag: Seq<char>) -> bool {
    exists|p: int| 0 <= p < v.len() && (#[trigger] v[p]).line == line && v[p].cols is None
        && v[p].tag@ == tag
}

/// Whether the paints `v` put `tag` on the columns `from..to` of `line`.
pub open spec fn marks(v: Seq<Paint>, line: int, from: int, to: int, tag: Seq<char>) -> bool {
    exists|p: int| 0 <= p < v.len() && (#[trigger] v[p]).line == line && v[p].tag@ == tag && (
    v[p].cols matches Some(c) && c.0 == from && c.1 == to)
}

/// Every line of a diff is tinted by what it is: added, removed, a hunk header, or one
/// about the files.
pub proof fn law_lines_are_tinted_by_their_kind(
    palette: &Palette,
    text: &str,
    diff: &[DiffLine],
    path: Option<&str>,
    r: Vec<Paint>,
    i: int,
)
    requires
        call_ensures(highlight_diff, (palette, text, diff, path), r),
        0 <= i < diff@.len(),
    ensures
        diff@[i].kind == DiffLineKind::Added ==> tints(r@, i, "add-line"@),
        diff@[i].kind == DiffLineKind::Removed ==> tints(r@, i, "del-line"@),
        diff@[i].kind == DiffLineKind::Hunk ==> tints(r@, i, "hunk"@),
        diff@[i].kind == DiffLineKind::Header || diff@[i].kind == DiffLineKind::Meta ==> tints(
            r@,
            i,
            "meta"@,
        ),
{
    let lines = text::lines(text@);
    let p = opt_str(path);
    lemma_paints_of_line(lines, diff@, p, diff@.len() as int, i);
    let own = diff_paints_at(lines, diff@, p, i);
    let at = diff_paints(lines, diff@, p, i).len() as int;
    let ground = background_paints(i, diff@[i].kind);
    if ground.len() > 0 {
        assert(own[0] == ground[0]);
        assert(paints(r@)[at + 0] == own[0]);
        assert(paints(r@)[at] == r@[at]@);
        assert(r@[at].line == i);
    }
}

/// The words that changed within a line are marked where they stand: a range of bytes
/// of the code covers the characters that take those bytes, behind the sign in front,
/// and is marked as added or as removed with its line.
pub proof fn law_changed_words_are_marked(
    palette: &Palette,
    text: &str,
    diff: &[DiffLine],
    path: Option<&str>,
    r: Vec<Paint>,
    i: int,
    w: int,
    from: int,
    to: int,
)
    requires
        call_ensures(highlight_diff, (palette, text, diff, path), r),
        0 <= i < diff@.len() <= text::lines(text@).len(),
        diff@[i].kind == DiffLineKind::Added || diff@[i].kind == DiffLineKind::Removed,
        text::lines(text@)[i].len() > 0,
        0 <= w < diff@[i].intra@.len(),
        begins_at(text::lines(text@)[i].skip(1), from, diff@[i].intra@[w].0 as int),
        begins_at(text::lines(text@)[i].skip(1), to, diff@[i].intra@[w].1 as int),
    ensures
        diff@[i].kind == DiffLineKind::Added ==> marks(r@, i, 1 + from, 1 + to, "add-word"@),
        diff@[i].kind == DiffLineKind::Removed ==> marks(r@, i, 1 + from, 1 + to, "del-word"@),
{
    let lines = text::lines(text@);
    let p = opt_str(path);
    let kind = diff@[i].kind;
    let raw = lines[i];
    let code = raw.skip(1);
    lemma_paints_of_line(lines, diff@, p, diff@.len() as int, i);
    let own = diff_paints_at(lines, diff@, p, i);
    let at = diff_paints(lines, diff@, p, i).len() as int;
    let language = language_at(lines, diff@, p, i);
    let before = side_before(lines, diff@, i, kind == DiffLineKind::Removed);
    let lead = background_paints(i, kind) + code_paints(i, 1, code, language, before);
    let words = word_paints(i, 1, code, diff@[i].intra@, word_tag(kind));
    assert(own == lead + words + blank_paints(i, raw, kind));
    let k = lead.len() + w;
    assert(own[k] == words[w]);
    lemma_byte_place(code, from, diff@[i].intra@[w].0 as int);
    lemma_byte_place(code, to, diff@[i].intra@[w].1 as int);
    assert(paints(r@)[at + k] == own[k]);
    assert(paints(r@)[at + k] == r@[at + k]@);
    assert(r@[at + k].line == i);
}

proof fn lemma_byte_place(s: Seq<char>, k: int, b: int)
    requires
        begins_at(s, k, b),
    ensures
        char_at_byte(s, b) == k,
{
    let c = char_at_byte(s, b);
    assert(begins_at(s, c, b));
    if c < k {
        lemma_byte_len_grows(s, c, k);
    } else if k < c {
        lemma_byte_len_grows(s, k, c);
    }
}

/// White space at the end of an added line is marked, from behind its last other
/// character to its end, and no other line's is.
pub proof fn law_trailing_blanks_of_added_lines_are_marked(
    palette: &Palette,
    text: &str,
    diff: &[DiffLine],
    path: Option<&str>,
    r: Vec<Paint>,
    i: int,
    end: int,
)
    requires
        call_ensures(highlight_diff, (palette, text, diff, path), r),
        0 <= i < diff@.len() <= text::lines(text@).len(),
        diff@[i].kind == DiffLineKind::Added,
        1 <= end < text::lines(text@)[i].len(),
        forall|k: int|
            end <= k < text::lines(text@)[i].len() ==> (#[trigger] text::lines(text@)[i][k]) == ' '
                || text::lines(text@)[i][k] == '\t',
        end > 1 ==> text::lines(text@)[i][end - 1] != ' ' && text::lines(text@)[i][end - 1]
            != '\t',
    ensures
        marks(r@, i, end, text::lines(text@)[i].len() as int, "trailing-ws"@),
{
    let lines = text::lines(text@);
    let p = opt_str(path);
    let raw = lines[i];
    let code = raw.skip(1);
    law_trailing_mark_is_exact(code);
    let e = ink_end(code);
    if e < end - 1 {
        assert(code[end - 2] == raw[end - 1]);
    } else if e > end - 1 {
        assert(code[e - 1] == raw[e]);
    }
    lemma_paints_of_line(lines, diff@, p, diff@.len() as int, i);
    let own = diff_paints_at(lines, diff@, p, i);
    let at = diff_paints(lines, diff@, p, i).len() as int;
    let blank = blank_paints(i, raw, DiffLineKind::Added);
    assert(blank.len() == 1);
    let k = own.len() - 1;
    assert(own[k] == blank[0]);
    assert(paints(r@)[at + k] == own[k]);
    assert(paints(r@)[at + k] == r@[at + k]@);
    assert(r@[at + k].line == i);
}

/// A line is coloured as what follows the lines of its own side: those of the old file
/// for a removed line, those of the new one for an added line, since the hunk began.
/// `at` lists them.
pub proof fn law_a_line_follows_its_own_side(
    lines: Seq<Seq<char>>,
    diff: Seq<DiffLine>,
    start: int,
    i: int,
    old_side: bool,
    at: Seq<int>,
)
    requires
        0 <= start < i <= diff.len(),
        diff[start].kind == DiffLineKind::Hunk,
        forall|m: int|
            start < m < i ==> (#[trigger] diff[m]).kind != DiffLineKind::Hunk && diff[m].kind
                != DiffLineKind::Header,
        indices::lists(
            at,
            start + 1,
            i,
            |m: int|
                diff[m].kind == DiffLineKind::Context || diff[m].kind == (if old_side {
                    DiffLineKind::Removed
                } else {
                    DiffLineKind::Added
                }),
        ),
    ensures
        side_before(lines, diff, i, old_side) == at.map_values(
            |m: int|
                (if lines[m].len() > 0 {
                    lines[m].skip(1)
                } else {
                    lines[m]
                }).push('\n'),
        ),
    decreases i,
{
    let p = |m: int|
        diff[m].kind == DiffLineKind::Context || diff[m].kind == (if old_side {
            DiffLineKind::Removed
        } else {
            DiffLineKind::Added
        });
    let f = |m: int|
        (if lines[m].len() > 0 {
            lines[m].skip(1)
        } else {
            lines[m]
        }).push('\n');
    indices::lemma_lists_step(at, start + 1, i, p);
    if i - 1 == start {
        assert(at.map_values(f) =~= Seq::<Seq<char>>::empty());
    } else {
        assert(diff[i - 1].kind != DiffLineKind::Hunk && diff[i - 1].kind != DiffLineKind::Header);
        assert(p(i - 1) == on_side(diff[i - 1].kind, old_side));
        if p(i - 1) {
            law_a_line_follows_its_own_side(lines, diff, start, i - 1, old_side, at.drop_last());
            assert(at.map_values(f) =~= at.drop_last().map_values(f).push(f(i - 1)));
        } else {
            law_a_line_follows_its_own_side(lines, diff, start, i - 1, old_side, at);
        }
    }
}

/// A line that is painted alone, right after a key, is painted as the first line of a
/// diff would be.
pub proof fn law_one_line_is_painted_as_in_a_diff(
    line: Seq<char>,
    d: DiffLine,
    path: Option<Seq<char>>,
)
    requires
        d.intra@.len() == 0,
    ensures
        diff_paints(seq![line], seq![d], path, 1) == diff_line_paints(
            0,
            line,
            d.kind,
            Seq::<(usize, usize)>::empty(),
            path_language(path),
            Seq::<Seq<char>>::empty(),
        ),
{
    assert(d.intra@ =~= Seq::<(usize, usize)>::empty());
    reveal_with_fuel(diff_paints, 2);
    let one = diff_paints_at(seq![line], seq![d], path, 0);
    assert(diff_paints(seq![line], seq![d], path, 1) =~= one);
}

/// Different colours have different tags.
pub proof fn law_colours_keep_apart(a: (u8, u8, u8), b: (u8, u8, u8))
    requires
        color_tag(a) == color_tag(b),
    ensures
        a == b,
{
    reveal_strlit("fg#");
    let (x, y) = (color_tag(a), color_tag(b));
    assert(x[3] == hex_byte(a.0)[0] && x[4] == hex_byte(a.0)[1]);
    assert(x[5] == hex_byte(a.1)[0] && x[6] == hex_byte(a.1)[1]);
    assert(x[7] == hex_byte(a.2)[0] && x[8] == hex_byte(a.2)[1]);
    assert(y[3] == hex_byte(b.0)[0] && y[4] == hex_byte(b.0)[1]);
    assert(y[5] == hex_byte(b.1)[0] && y[6] == hex_byte(b.1)[1]);
    assert(y[7] == hex_byte(b.2)[0] && y[8] == hex_byte(b.2)[1]);
}

/// Every piece of code gets the colour that it was given, in order, where each piece
/// has text and all of them fit the line.
pub proof fn law_pieces_keep_their_colours(line: int, prefix: int, n: int, v: Seq<ink::SpanText>)
    requires
        forall|k: int| 0 <= k < v.len() ==> (#[trigger] v[k]).text.len() > 0,
        ink::covered(v).len() <= n,
    ensures
        span_paints(line, prefix, n, v).len() == v.len(),
        forall|k: int|
            0 <= k < v.len() ==> (#[trigger] span_paints(line, prefix, n, v)[k]).tag == color_tag(
                v[k].color,
            ),
        v.len() > 0 ==> end_col(span_paints(line, prefix, n, v).last()) - first_col(
            span_paints(line, prefix, n, v).last(),
        ) == v.last().text.len(),
    decreases v.len(),
{
    if v.len() > 0 {
        let init = v.drop_last();
        assert(v[v.len() - 1].text.len() > 0);
        assert forall|k: int| 0 <= k < init.len() implies (#[trigger] init[k]).text.len() > 0 by {
            assert(init[k] == v[k]);
        }
        law_pieces_keep_their_colours(line, prefix, n, init);
        assert forall|k: int| 0 <= k < v.len() implies (#[trigger] span_paints(
            line,
            prefix,
            n,
            v,
        )[k]).tag == color_tag(v[k].color) by {
            if k < init.len() {
                assert(span_paints(line, prefix, n, v)[k] == span_paints(line, prefix, n, init)[k]);
                assert(init[k] == v[k]);
            }
        }
    }
}

proof fn lemma_conflict_paints_of_line(
    lines: Seq<Seq<char>>,
    kinds: Seq<ConflictLineKind>,
    path: Option<Seq<char>>,
    n: int,
    i: int,
)
    requires
        0 <= i < n,
    ensures
        ({
            let all = conflict_paints(lines, kinds, path, n);
            let at = conflict_paints(lines, kinds, path, i).len() as int;
            let own = conflict_paints_at(lines, kinds, path, i);
            &&& at + own.len() <= all.len()
            &&& forall|k: int| 0 <= k < own.len() ==> #[trigger] all[at + k] == own[k]
        }),
    decreases n,
{
    if i < n - 1 {
        lemma_conflict_paints_of_line(lines, kinds, path, n - 1, i);
        let all = conflict_paints(lines, kinds, path, n);
        let init = conflict_paints(lines, kinds, path, n - 1);
        let at = conflict_paints(lines, kinds, path, i).len() as int;
        let own = conflict_paints_at(lines, kinds, path, i);
        assert forall|k: int| 0 <= k < own.len() implies #[trigger] all[at + k] == own[k] by {
            assert(all[at + k] == init[at + k]);
        }
    }
}

/// Every line of the conflict view is tinted by the side it belongs to, a marker as
/// one, and the lines of the layout as such.
pub proof fn law_conflict_lines_are_tinted_by_their_side(
    palette: &Palette,
    text: &str,
    kinds: &[ConflictLineKind],
    path: Option<&str>,
    r: Vec<Paint>,
    i: int,
)
    requires
        call_ensures(highlight_conflict, (palette, text, kinds, path), r),
        0 <= i < kinds@.len() <= text::lines(text@).len(),
    ensures
        ({
            let raw = text::lines(text@)[i];
            let layout = conflict::protected_line(raw);
            &&& conflict::header_path(raw) is Some ==> tints(r@, i, "hunk"@)
            &&& layout && conflict::header_path(raw) is None ==> tints(r@, i, "meta"@)
            &&& !layout && kinds@[i] == ConflictLineKind::Ours ==> tints(r@, i, "ours-line"@)
            &&& !layout && kinds@[i] == ConflictLineKind::Theirs ==> tints(r@, i, "theirs-line"@)
            &&& !layout && kinds@[i] == ConflictLineKind::Base ==> tints(r@, i, "base-line"@)
            &&& !layout && (kinds@[i] == ConflictLineKind::MarkerOurs || kinds@[i]
                == ConflictLineKind::MarkerBase || kinds@[i] == ConflictLineKind::MarkerSep
                || kinds@[i] == ConflictLineKind::MarkerTheirs) ==> tints(r@, i, "conflict-marker"@)
        }),
{
    let lines = text::lines(text@);
    let p = opt_str(path);
    lemma_conflict_paints_of_line(lines, kinds@, p, kinds@.len() as int, i);
    let own = conflict_paints_at(lines, kinds@, p, i);
    let at = conflict_paints(lines, kinds@, p, i).len() as int;
    if own.len() > 0 {
        assert(paints(r@)[at + 0] == own[0]);
        assert(paints(r@)[at] == r@[at]@);
        assert(own[0].line == i ==> r@[at].line == i);
    }
    let raw = lines[i];
    if !conflict::protected_line(raw) {
        if let Some(t) = conflict_background(kinds@[i]) {
            let ground = seq![on_line(i, t)];
            assert(own[0] == ground[0]);
        }
    }
}

} // verus!
