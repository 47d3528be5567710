//! The rendering engine: hex rows and box-drawing underlines.
//!
//! A buffer is shown as 16-byte rows.  Each row carries, below its hex
//! bytes, one underline line per annotation whose range touches the row,
//! in ascending order of offset (ties keep insertion order).  The exact
//! text of the whole dump is stated by `dump_text`.
//!
//! Zero-length annotations never render: the overlap filter admits only
//! ranges of at least one byte.

use vstd::prelude::*;

use crate::color::ColorScheme;
use crate::numtext::addr_str;
use crate::numtext::byte_hex;

verus! {

/// Whether an annotation marks decoded data or a decode failure.
#[derive(Debug, Clone, Copy, PartialEq, Eq, Structural)]
pub enum AnnotationKind {
    Normal,
    Error,
}

/// A labeled byte range drawn under the hex grid.
#[derive(Debug)]
pub struct Annotation {
    /// Starting byte offset into the buffer.
    pub offset: usize,
    /// Number of bytes covered.
    pub length: usize,
    /// Text shown once, on the row where the range starts.
    pub label: String,
    /// Selects the rendering style.
    pub kind: AnnotationKind,
}

/// The mathematical content of an `Annotation`.
pub struct AnnView {
    pub offset: nat,
    pub length: nat,
    pub label: Seq<char>,
    pub kind: AnnotationKind,
}

impl View for Annotation {
    type V = AnnView;

    open spec fn view(&self) -> AnnView {
        AnnView {
            offset: self.offset as nat,
            length: self.length as nat,
            label: self.label@,
            kind: self.kind,
        }
    }
}

impl Annotation {
    /// A normal annotation over `length` bytes starting at `offset`.
    pub fn new(offset: usize, length: usize, label: String) -> (r: Annotation)
        ensures
            r@ == (AnnView {
                offset: offset as nat,
                length: length as nat,
                label: label@,
                kind: AnnotationKind::Normal,
            }),
    {
        Annotation { offset, length, label, kind: AnnotationKind::Normal }
    }

    /// An error annotation over `length` bytes starting at `offset`.
    pub fn error(offset: usize, length: usize, label: String) -> (r: Annotation)
        ensures
            r@ == (AnnView {
                offset: offset as nat,
                length: length as nat,
                label: label@,
                kind: AnnotationKind::Error,
            }),
    {
        Annotation { offset, length, label, kind: AnnotationKind::Error }
    }

    /// An exact copy.
    pub fn duplicate(&self) -> (r: Annotation)
        ensures
            r@ == self@,
    {
        Annotation {
            offset: self.offset,
            length: self.length,
            label: self.label.clone(),
            kind: self.kind,
        }
    }
}

/// The annotation's range contains byte `pos`.
pub open spec fn covers(a: AnnView, pos: nat) -> bool {
    a.offset <= pos < a.offset + a.length
}

/// The style for the byte at `pos`: error annotations take precedence
/// over normal ones, unannotated bytes have none.
pub open spec fn kind_at(anns: Seq<AnnView>, pos: nat) -> Option<AnnotationKind> {
    if exists|j: int|
        0 <= j < anns.len() && anns[j].kind == AnnotationKind::Error && covers(anns[j], pos) {
        Some(AnnotationKind::Error)
    } else if exists|j: int| 0 <= j < anns.len() && covers(anns[j], pos) {
        Some(AnnotationKind::Normal)
    } else {
        None
    }
}

/// The annotation touches the row of `row_len` bytes at `row_off`, with
/// at least one byte of range.
pub open spec fn overlaps_row(a: AnnView, row_off: nat, row_len: nat) -> bool {
    a.offset < row_off + row_len && a.offset + a.length > row_off && a.length > 0
}

/// The annotations of one row, in input order.
pub open spec fn row_filter(anns: Seq<AnnView>, row_off: nat, row_len: nat) -> Seq<AnnView>
    decreases anns.len(),
{
    if anns.len() == 0 {
        Seq::empty()
    } else {
        row_filter(anns.drop_last(), row_off, row_len) + (if overlaps_row(
            anns.last(),
            row_off,
            row_len,
        ) {
            seq![anns.last()]
        } else {
            Seq::empty()
        })
    }
}

/// Inserts `a` behind every element whose offset is at most `a.offset`:
/// the insertion step of a stable sort.
pub open spec fn insert_by_offset(sorted: Seq<AnnView>, a: AnnView) -> Seq<AnnView>
    decreases sorted.len(),
{
    if sorted.len() == 0 {
        seq![a]
    } else if sorted.last().offset <= a.offset {
        sorted.push(a)
    } else {
        insert_by_offset(sorted.drop_last(), a).push(sorted.last())
    }
}

/// Stable insertion sort by ascending offset.
pub open spec fn sort_by_offset(s: Seq<AnnView>) -> Seq<AnnView>
    decreases s.len(),
{
    if s.len() == 0 {
        Seq::empty()
    } else {
        insert_by_offset(sort_by_offset(s.drop_last()), s.last())
    }
}

/// Offsets never decrease along the sequence.
pub open spec fn offsets_ascending(s: Seq<AnnView>) -> bool {
    forall|i: int, j: int| 0 <= i <= j < s.len() ==> s[i].offset <= s[j].offset
}

/// Inserting into an offset-sorted sequence keeps it sorted.
pub proof fn lemma_insert_by_offset_sorted(sorted: Seq<AnnView>, a: AnnView)
    requires
        offsets_ascending(sorted),
    ensures
        offsets_ascending(insert_by_offset(sorted, a)),
    decreases sorted.len(),
{
    if sorted.len() == 0 {
    } else if sorted.last().offset <= a.offset {
        let r = sorted.push(a);
        assert forall|i: int, j: int| 0 <= i <= j < r.len() implies r[i].offset
            <= r[j].offset by {
            if j < r.len() - 1 {
                assert(r[i] == sorted[i] && r[j] == sorted[j]);
            } else if i < r.len() - 1 {
                assert(r[i] == sorted[i]);
                assert(sorted[i].offset <= sorted.last().offset);
            }
        }
    } else {
        let head = sorted.drop_last();
        assert(offsets_ascending(head)) by {
            assert forall|i: int, j: int| 0 <= i <= j < head.len() implies head[i].offset
                <= head[j].offset by {
                assert(head[i] == sorted[i] && head[j] == sorted[j]);
            }
        }
        lemma_insert_by_offset_sorted(head, a);
        let inner = insert_by_offset(head, a);
        let r = inner.push(sorted.last());
        lemma_insert_by_offset_bound(head, a);
        assert forall|i: int, j: int| 0 <= i <= j < r.len() implies r[i].offset
            <= r[j].offset by {
            if j < r.len() - 1 {
                assert(r[i] == inner[i] && r[j] == inner[j]);
            } else if i < r.len() - 1 {
                assert(r[i] == inner[i]);
            }
        }
    }
}

/// Every element of the insertion result is bounded by some element of
/// the inputs.
proof fn lemma_insert_by_offset_bound(sorted: Seq<AnnView>, a: AnnView)
    requires
        offsets_ascending(sorted),
    ensures
        forall|i: int|
            0 <= i < insert_by_offset(sorted, a).len() ==> #[trigger] insert_by_offset(
                sorted,
                a,
            )[i].offset <= max_offset(sorted, a),
    decreases sorted.len(),
{
    let r = insert_by_offset(sorted, a);
    if sorted.len() == 0 {
    } else if sorted.last().offset <= a.offset {
        assert forall|i: int| 0 <= i < r.len() implies r[i].offset <= max_offset(sorted, a) by {
            if i < r.len() - 1 {
                assert(r[i] == sorted[i]);
                assert(sorted[i].offset <= sorted.last().offset);
            }
        }
    } else {
        let head = sorted.drop_last();
        assert(offsets_ascending(head)) by {
            assert forall|i: int, j: int| 0 <= i <= j < head.len() implies head[i].offset
                <= head[j].offset by {
                assert(head[i] == sorted[i] && head[j] == sorted[j]);
            }
        }
        lemma_insert_by_offset_bound(head, a);
        let inner = insert_by_offset(head, a);
        assert forall|i: int| 0 <= i < r.len() implies r[i].offset <= max_offset(sorted, a) by {
            if i < r.len() - 1 {
                assert(r[i] == inner[i]);
                assert(inner[i].offset <= max_offset(head, a));
                if head.len() > 0 {
                    assert(head.last() == sorted[sorted.len() - 2]);
                    assert(sorted[sorted.len() - 2].offset <= sorted.last().offset);
                }
            }
        }
    }
}

/// The larger of a sequence's last offset and `a`'s offset.
spec fn max_offset(sorted: Seq<AnnView>, a: AnnView) -> nat {
    if sorted.len() == 0 {
        a.offset
    } else if sorted.last().offset <= a.offset {
        a.offset
    } else {
        sorted.last().offset
    }
}

/// The sorted sequence has ascending offsets.
pub proof fn lemma_sort_by_offset_sorted(s: Seq<AnnView>)
    ensures
        offsets_ascending(sort_by_offset(s)),
    decreases s.len(),
{
    if s.len() > 0 {
        lemma_sort_by_offset_sorted(s.drop_last());
        lemma_insert_by_offset_sorted(sort_by_offset(s.drop_last()), s.last());
    }
}

/// Inserting at the partition point is what `insert_by_offset` does.
proof fn lemma_insert_by_offset_at(sorted: Seq<AnnView>, a: AnnView, j: int)
    requires
        0 <= j <= sorted.len(),
        forall|i: int| 0 <= i < j ==> sorted[i].offset <= a.offset,
        forall|i: int| j <= i < sorted.len() ==> sorted[i].offset > a.offset,
    ensures
        insert_by_offset(sorted, a) == sorted.subrange(0, j) + seq![a] + sorted.subrange(
            j,
            sorted.len() as int,
        ),
    decreases sorted.len(),
{
    if sorted.len() == 0 {
        assert(insert_by_offset(sorted, a) =~= sorted.subrange(0, j) + seq![a] + sorted.subrange(
            j,
            sorted.len() as int,
        ));
    } else if sorted.last().offset <= a.offset {
        assert(j == sorted.len());
        assert(insert_by_offset(sorted, a) =~= sorted.subrange(0, j) + seq![a] + sorted.subrange(
            j,
            sorted.len() as int,
        ));
    } else {
        let head = sorted.drop_last();
        assert(j <= head.len());
        assert(forall|i: int| 0 <= i < j ==> head[i] == sorted[i]);
        assert(forall|i: int| j <= i < head.len() ==> head[i] == sorted[i]);
        lemma_insert_by_offset_at(head, a, j);
        assert(insert_by_offset(sorted, a) =~= sorted.subrange(0, j) + seq![a] + sorted.subrange(
            j,
            sorted.len() as int,
        ));
    }
}

/// `k` repetitions of the space character.
pub open spec fn spaces(k: nat) -> Seq<char> {
    Seq::new(k, |i: int| ' ')
}

/// One three-column cell of an underline row (two columns for the cell
/// just past the range's end, which holds the closing corner).  `s` and
/// `e` are the first annotated position and the position after the last
/// annotated one; `prev` and `next` say whether the range continues from
/// the previous row or onto the next one.
pub open spec fn underline_cell(i: int, s: int, e: int, prev: bool, next: bool) -> Seq<char> {
    if i == s {
        if prev {
            seq!['─', '─', '─']
        } else {
            seq!['└', '─', '─']
        }
    } else if i == e {
        if next {
            seq![' ', ' ']
        } else {
            seq!['┘', ' ']
        }
    } else if s < i && i < e {
        if i == e - 1 && e == 16 && !next {
            seq!['─', '─']
        } else {
            seq!['─', '─', '─']
        }
    } else {
        seq![' ', ' ', ' ']
    }
}

/// The extra column after position 7, mirroring the hex grid's mid-row
/// gap: part of the run while inside the range, absent when the range
/// opens exactly there.
pub open spec fn underline_gap(s: int, e: int) -> Seq<char> {
    if s == 7 {
        Seq::empty()
    } else if s <= 7 && 7 < e {
        seq!['─']
    } else {
        seq![' ']
    }
}

/// The first `upto` cells of an underline row, gap included.
pub open spec fn underline_cells(s: int, e: int, prev: bool, next: bool, upto: int) -> Seq<char>
    decreases upto,
{
    if upto <= 0 {
        Seq::empty()
    } else {
        underline_cells(s, e, prev, next, upto - 1) + underline_cell(upto - 1, s, e, prev, next)
            + (if upto - 1 == 7 {
            underline_gap(s, e)
        } else {
            Seq::empty()
        })
    }
}

/// First annotated position of `a` on the row starting at `row_off`.
pub open spec fn start_in_row(a: AnnView, row_off: nat) -> int {
    if a.offset > row_off {
        a.offset - row_off
    } else {
        0
    }
}

/// Position after the last annotated byte of `a` on the row.
pub open spec fn end_in_row(a: AnnView, row_off: nat, row_len: nat) -> int {
    if a.offset + a.length < row_off + row_len {
        a.offset + a.length - row_off
    } else {
        row_len as int
    }
}

/// The whole underline-and-label line of one annotation on one row.
pub open spec fn annotation_line(c: ColorScheme, a: AnnView, row_off: nat, row_len: nat) -> Seq<
    char,
> {
    let s = start_in_row(a, row_off);
    let e = end_in_row(a, row_off, row_len);
    let prev = a.offset < row_off;
    let next = a.offset + a.length > row_off + row_len;
    let closing = e == 16 && !next;
    let base = spaces(9) + underline_cells(s, e, prev, next, 16);
    let target: int = if closing {
        57
    } else {
        58
    };
    let pad: int = if base.len() < target {
        target - base.len()
    } else {
        0
    };
    base + (if closing {
        seq!['┘']
    } else {
        Seq::<char>::empty()
    }) + spaces(pad as nat) + (if row_off <= a.offset && a.offset < row_off + row_len {
        seq![' '] + (if a.kind == AnnotationKind::Error {
            c.error_text(a.label)
        } else {
            c.label_text(a.label)
        })
    } else {
        Seq::<char>::empty()
    }) + seq!['\n']
}

/// One styled hex byte cell, trailing space included.
pub open spec fn hex_byte_text(c: ColorScheme, anns: Seq<AnnView>, data: Seq<u8>, pos: int) -> Seq<
    char,
> {
    let h = byte_hex(data[pos]);
    match kind_at(anns, pos as nat) {
        Some(AnnotationKind::Normal) => c.annotation_text(h) + seq![' '],
        Some(AnnotationKind::Error) => c.error_text(h) + seq![' '],
        None => h + seq![' '],
    }
}

/// The first `upto` byte cells of a hex row, gap included.
pub open spec fn hex_cells(
    c: ColorScheme,
    anns: Seq<AnnView>,
    data: Seq<u8>,
    row_off: nat,
    row_len: nat,
    upto: int,
) -> Seq<char>
    decreases upto,
{
    if upto <= 0 {
        Seq::empty()
    } else {
        hex_cells(c, anns, data, row_off, row_len, upto - 1) + (if upto - 1 < row_len {
            hex_byte_text(c, anns, data, row_off + upto - 1)
        } else {
            seq![' ', ' ', ' ']
        }) + (if upto - 1 == 7 {
            seq![' ']
        } else {
            Seq::<char>::empty()
        })
    }
}

/// The address-and-bytes line of one row.
pub open spec fn hex_row_line(
    c: ColorScheme,
    anns: Seq<AnnView>,
    data: Seq<u8>,
    row_off: nat,
    row_len: nat,
) -> Seq<char> {
    c.addr_text(addr_str(row_off)) + seq![' ', ' '] + hex_cells(
        c,
        anns,
        data,
        row_off,
        row_len,
        16,
    ) + seq!['\n']
}

/// The annotations rendered under one row, in order.
pub open spec fn row_anns(anns: Seq<AnnView>, row_off: nat, row_len: nat) -> Seq<AnnView> {
    sort_by_offset(row_filter(anns, row_off, row_len))
}

/// The first `upto` underline lines of one row.
pub open spec fn ann_lines(
    c: ColorScheme,
    sorted: Seq<AnnView>,
    row_off: nat,
    row_len: nat,
    upto: int,
) -> Seq<char>
    decreases upto,
{
    if upto <= 0 {
        Seq::empty()
    } else {
        ann_lines(c, sorted, row_off, row_len, upto - 1) + annotation_line(
            c,
            sorted[upto - 1],
            row_off,
            row_len,
        )
    }
}

/// The number of bytes the row starting at `row_off` holds.
pub open spec fn row_len_at(data_len: nat, row_off: nat) -> nat {
    if data_len - row_off < 16 {
        (data_len - row_off) as nat
    } else {
        16
    }
}

/// One row: its hex line and its underline lines.
pub open spec fn row_block(c: ColorScheme, anns: Seq<AnnView>, data: Seq<u8>, row_off: nat) -> Seq<
    char,
> {
    let row_len = row_len_at(data.len(), row_off);
    hex_row_line(c, anns, data, row_off, row_len) + ann_lines(
        c,
        row_anns(anns, row_off, row_len),
        row_off,
        row_len,
        row_anns(anns, row_off, row_len).len() as int,
    )
}

/// The first `nrows` rows of the dump.
pub open spec fn dump_rows(c: ColorScheme, anns: Seq<AnnView>, data: Seq<u8>, nrows: int) -> Seq<
    char,
>
    decreases nrows,
{
    if nrows <= 0 {
        Seq::empty()
    } else {
        dump_rows(c, anns, data, nrows - 1) + row_block(
            c,
            anns,
            data,
            (16 * (nrows - 1)) as nat,
        )
    }
}

/// How many 16-byte rows a buffer of `len` bytes fills.
pub open spec fn num_rows(len: nat) -> int {
    ((len + 15) / 16) as int
}

/// The whole dump: every row, then the past-the-end address line.
pub open spec fn dump_text(c: ColorScheme, anns: Seq<AnnView>, data: Seq<u8>) -> Seq<char> {
    dump_rows(c, anns, data, num_rows(data.len())) + c.addr_text(addr_str(data.len()))
        + seq!['\n']
}

/// The views of a sequence of annotations.
pub open spec fn views_of(v: Seq<Annotation>) -> Seq<AnnView> {
    v.map_values(|a: Annotation| a@)
}

/// Every element the row filter keeps overlaps the row.
proof fn lemma_row_filter_overlaps(anns: Seq<AnnView>, row_off: nat, row_len: nat)
    ensures
        forall|i: int|
            0 <= i < row_filter(anns, row_off, row_len).len() ==> overlaps_row(
                #[trigger] row_filter(anns, row_off, row_len)[i],
                row_off,
                row_len,
            ),
    decreases anns.len(),
{
    if anns.len() > 0 {
        lemma_row_filter_overlaps(anns.drop_last(), row_off, row_len);
        let head = row_filter(anns.drop_last(), row_off, row_len);
        let whole = row_filter(anns, row_off, row_len);
        assert forall|i: int| 0 <= i < whole.len() implies overlaps_row(
            #[trigger] whole[i],
            row_off,
            row_len,
        ) by {
            if i < head.len() {
                assert(whole[i] == head[i]);
            } else {
                assert(whole[i] == anns.last());
            }
        }
    }
}

/// Insertion keeps the overlap property of every element.
proof fn lemma_insert_keeps_overlap(sorted: Seq<AnnView>, a: AnnView, row_off: nat, row_len: nat)
    requires
        forall|i: int| 0 <= i < sorted.len() ==> overlaps_row(#[trigger] sorted[i], row_off, row_len),
        overlaps_row(a, row_off, row_len),
    ensures
        forall|i: int|
            0 <= i < insert_by_offset(sorted, a).len() ==> overlaps_row(
                #[trigger] insert_by_offset(sorted, a)[i],
                row_off,
                row_len,
            ),
    decreases sorted.len(),
{
    let whole = insert_by_offset(sorted, a);
    if sorted.len() == 0 {
        assert(whole =~= seq![a]);
    } else if sorted.last().offset <= a.offset {
        assert forall|i: int| 0 <= i < whole.len() implies overlaps_row(
            #[trigger] whole[i],
            row_off,
            row_len,
        ) by {
            if i < sorted.len() {
                assert(whole[i] == sorted[i]);
            }
        }
    } else {
        let head = sorted.drop_last();
        assert forall|i: int| 0 <= i < head.len() implies overlaps_row(
            #[trigger] head[i],
            row_off,
            row_len,
        ) by {
            assert(head[i] == sorted[i]);
        }
        lemma_insert_keeps_overlap(head, a, row_off, row_len);
        let inner = insert_by_offset(head, a);
        assert forall|i: int| 0 <= i < whole.len() implies overlaps_row(
            #[trigger] whole[i],
            row_off,
            row_len,
        ) by {
            if i < inner.len() {
                assert(whole[i] == inner[i]);
            } else {
                assert(whole[i] == sorted.last());
            }
        }
    }
}

/// Sorting keeps the overlap property of every element.
proof fn lemma_sort_keeps_overlap(s: Seq<AnnView>, row_off: nat, row_len: nat)
    requires
        forall|i: int| 0 <= i < s.len() ==> overlaps_row(#[trigger] s[i], row_off, row_len),
    ensures
        forall|i: int|
            0 <= i < sort_by_offset(s).len() ==> overlaps_row(
                #[trigger] sort_by_offset(s)[i],
                row_off,
                row_len,
            ),
    decreases s.len(),
{
    if s.len() > 0 {
        let head = s.drop_last();
        assert forall|i: int| 0 <= i < head.len() implies overlaps_row(
            #[trigger] head[i],
            row_off,
            row_len,
        ) by {
            assert(head[i] == s[i]);
        }
        lemma_sort_keeps_overlap(head, row_off, row_len);
        lemma_insert_keeps_overlap(sort_by_offset(head), s.last(), row_off, row_len);
    }
}

/// Appends `k` spaces to `u`.
fn append_spaces(u: &mut String, k: usize)
    ensures
        final(u)@ == old(u)@ + spaces(k as nat),
{
    let mut i: usize = 0;
    proof {
        assert(u@ =~= old(u)@ + spaces(0));
    }
    while i < k
        invariant
            i <= k,
            u@ == old(u)@ + spaces(i as nat),
        decreases k - i,
    {
        u.append(" ");
        i = i + 1;
        proof {
            reveal_strlit(" ");
            assert(u@ =~= old(u)@ + spaces(i as nat));
        }
    }
}

/// Appends a plain horizontal run cell.
fn append_run3(u: &mut String)
    ensures
        final(u)@ == old(u)@ + seq!['─', '─', '─'],
{
    proof {
        reveal_strlit("───");
    }
    u.append("───");
    proof {
        assert(u@ =~= old(u)@ + seq!['─', '─', '─']);
    }
}

/// Appends the shortened run before a closing corner at the row's end.
fn append_run2(u: &mut String)
    ensures
        final(u)@ == old(u)@ + seq!['─', '─'],
{
    proof {
        reveal_strlit("──");
    }
    u.append("──");
    proof {
        assert(u@ =~= old(u)@ + seq!['─', '─']);
    }
}

/// Appends the single run column of the mid-row gap.
fn append_run1(u: &mut String)
    ensures
        final(u)@ == old(u)@ + seq!['─'],
{
    proof {
        reveal_strlit("─");
    }
    u.append("─");
    proof {
        assert(u@ =~= old(u)@ + seq!['─']);
    }
}

/// Appends an opening corner cell.
fn append_open3(u: &mut String)
    ensures
        final(u)@ == old(u)@ + seq!['└', '─', '─'],
{
    proof {
        reveal_strlit("└──");
    }
    u.append("└──");
    proof {
        assert(u@ =~= old(u)@ + seq!['└', '─', '─']);
    }
}

/// Appends a closing corner and its trailing blank.
fn append_close2(u: &mut String)
    ensures
        final(u)@ == old(u)@ + seq!['┘', ' '],
{
    proof {
        reveal_strlit("┘ ");
    }
    u.append("┘ ");
    proof {
        assert(u@ =~= old(u)@ + seq!['┘', ' ']);
    }
}

/// Appends the closing corner placed after the sixteenth position.
fn append_close1(u: &mut String)
    ensures
        final(u)@ == old(u)@ + seq!['┘'],
{
    proof {
        reveal_strlit("┘");
    }
    u.append("┘");
    proof {
        assert(u@ =~= old(u)@ + seq!['┘']);
    }
}

/// Appends a line break.
fn append_newline(u: &mut String)
    ensures
        final(u)@ == old(u)@ + seq!['\n'],
{
    proof {
        reveal_strlit("\n");
    }
    u.append("\n");
    proof {
        assert(u@ =~= old(u)@ + seq!['\n']);
    }
}

/// The two hex digits of one byte.
fn byte_hex_string(b: u8) -> (r: String)
    ensures
        r@ == byte_hex(b),
{
    let mut s = String::new();
    crate::numtext::push_hex_digit(&mut s, b / 16);
    crate::numtext::push_hex_digit(&mut s, b % 16);
    proof {
        assert(s@ =~= byte_hex(b));
    }
    s
}

/// An address column entry: at least eight hex digits, zero-padded.
fn addr_string(n: usize) -> (r: String)
    ensures
        r@ == addr_str(n as nat),
{
    let mut s = String::new();
    crate::numtext::append_hex_padded(&mut s, n as u64, 8);
    proof {
        assert(s@ =~= addr_str(n as nat));
    }
    s
}

/// Builds the underline for one annotation on one row, and its width in
/// characters.
#[verifier::rlimit(100)]
#[verifier::spinoff_prover]
fn build_underline(s_in: usize, e_in: usize, prev: bool, next: bool) -> (r: (String, usize))
    requires
        s_in < e_in,
        e_in <= 16,
    ensures
        r.0@ == spaces(9) + underline_cells(s_in as int, e_in as int, prev, next, 16),
        r.1 == r.0@.len(),
{
    let mut u = String::new();
    let mut width: usize = 9;
    append_spaces(&mut u, 9);
    let mut i: usize = 0;
    proof {
        assert(u@ =~= spaces(9) + underline_cells(s_in as int, e_in as int, prev, next, 0));
        assert(spaces(9).len() == 9);
    }
    while i < 16
        invariant
            i <= 16,
            s_in < e_in,
            e_in <= 16,
            u@ == spaces(9) + underline_cells(s_in as int, e_in as int, prev, next, i as int),
            width == u@.len(),
            width <= 9 + 4 * i,
        decreases 16 - i,
    {
        if i == s_in {
            if prev {
                append_run3(&mut u);
            } else {
                append_open3(&mut u);
            }
            width = width + 3;
        } else if i == e_in {
            if next {
                append_spaces(&mut u, 2);
                proof {
                    assert(spaces(2) =~= seq![' ', ' ']);
                }
            } else {
                append_close2(&mut u);
            }
            width = width + 2;
        } else if s_in < i && i < e_in {
            if i + 1 == e_in && e_in == 16 && !next {
                append_run2(&mut u);
                width = width + 2;
            } else {
                append_run3(&mut u);
                width = width + 3;
            }
        } else {
            append_spaces(&mut u, 3);
            proof {
                assert(spaces(3) =~= seq![' ', ' ', ' ']);
            }
            width = width + 3;
        }
        if i == 7 && s_in != 7 {
            if s_in <= 7 && 7 < e_in {
                append_run1(&mut u);
            } else {
                append_spaces(&mut u, 1);
                proof {
                    assert(spaces(1) =~= seq![' ']);
                }
            }
            width = width + 1;
        }
        i = i + 1;
        proof {
            assert(u@ =~= spaces(9) + underline_cells(
                s_in as int,
                e_in as int,
                prev,
                next,
                i as int,
            ));
        }
    }
    (u, width)
}

/// Renders a byte buffer as 16-byte hex rows with underline annotations.
pub struct Hexdump {
    /// The annotations, in the order they were added.
    pub annotations: Vec<Annotation>,
    /// The styling policy.
    pub colors: ColorScheme,
}

impl Hexdump {
    /// The views of the held annotations, in order.
    pub open spec fn anns_view(self) -> Seq<AnnView> {
        views_of(self.annotations@)
    }

    /// A dump with no annotations and styling switched off.
    pub fn new() -> (r: Hexdump)
        ensures
            r.anns_view() == Seq::<AnnView>::empty(),
            !r.colors.use_color,
    {
        let r = Hexdump { annotations: Vec::new(), colors: ColorScheme::new(false) };
        proof {
            assert(r.anns_view() =~= Seq::<AnnView>::empty());
        }
        r
    }

    /// A dump with no annotations and the given styling policy.
    pub fn with_colors(colors: ColorScheme) -> (r: Hexdump)
        ensures
            r.anns_view() == Seq::<AnnView>::empty(),
            r.colors == colors,
    {
        let r = Hexdump { annotations: Vec::new(), colors };
        proof {
            assert(r.anns_view() =~= Seq::<AnnView>::empty());
        }
        r
    }

    /// Adds one annotation at the end.
    pub fn add_annotation(&mut self, annotation: Annotation)
        ensures
            final(self).anns_view() == old(self).anns_view().push(annotation@),
            final(self).colors == old(self).colors,
    {
        let ghost pre = self.annotations@;
        self.annotations.push(annotation);
        proof {
            assert(self.anns_view() =~= views_of(pre).push(self.annotations@.last()@));
        }
    }

    /// The style of the byte at `offset`, if any annotation covers it.
    fn get_byte_annotation_kind(&self, offset: usize) -> (r: Option<AnnotationKind>)
        ensures
            r == kind_at(self.anns_view(), offset as nat),
    {
        let mut has_normal = false;
        let n = self.annotations.len();
        let mut i: usize = 0;
        while i < n
            invariant
                i <= n,
                n == self.annotations@.len(),
                forall|j: int|
                    0 <= j < i ==> !(#[trigger] self.anns_view()[j].kind == AnnotationKind::Error
                        && covers(self.anns_view()[j], offset as nat)),
                has_normal == exists|j: int|
                    0 <= j < i && covers(#[trigger] self.anns_view()[j], offset as nat),
            decreases n - i,
        {
            let a = &self.annotations[i];
            if offset >= a.offset && offset - a.offset < a.length {
                proof {
                    assert(covers(self.anns_view()[i as int], offset as nat));
                }
                match a.kind {
                    AnnotationKind::Error => {
                        return Some(AnnotationKind::Error);
                    },
                    AnnotationKind::Normal => {
                        has_normal = true;
                    },
                }
            }
            i = i + 1;
        }
        if has_normal {
            Some(AnnotationKind::Normal)
        } else {
            None
        }
    }

    /// Some annotation covers the byte at `offset`.
    pub fn is_byte_annotated(&self, offset: usize) -> (r: bool)
        ensures
            r == (kind_at(self.anns_view(), offset as nat) is Some),
    {
        match self.get_byte_annotation_kind(offset) {
            Some(_) => true,
            None => false,
        }
    }

    /// The annotations touching one row, sorted by ascending offset,
    /// ties in insertion order.
    fn sorted_row_annotations(&self, row_off: usize, row_len: usize) -> (r: Vec<Annotation>)
        requires
            row_off + row_len <= usize::MAX,
        ensures
            views_of(r@) == row_anns(self.anns_view(), row_off as nat, row_len as nat),
            offsets_ascending(views_of(r@)),
            forall|i: int|
                0 <= i < views_of(r@).len() ==> overlaps_row(
                    #[trigger] views_of(r@)[i],
                    row_off as nat,
                    row_len as nat,
                ),
    {
        let line_end = row_off + row_len;
        let mut r: Vec<Annotation> = Vec::new();
        let n = self.annotations.len();
        let mut i: usize = 0;
        proof {
            assert(self.annotations@.take(0int) =~= Seq::<Annotation>::empty());
            assert(views_of(Seq::<Annotation>::empty()) =~= Seq::<AnnView>::empty());
            assert(views_of(r@) =~= sort_by_offset(
                row_filter(views_of(self.annotations@.take(0int)), row_off as nat, row_len as nat),
            ));
        }
        while i < n
            invariant
                i <= n,
                n == self.annotations@.len(),
                line_end == row_off + row_len,
                views_of(r@) == sort_by_offset(
                    row_filter(
                        views_of(self.annotations@.take(i as int)),
                        row_off as nat,
                        row_len as nat,
                    ),
                ),
                offsets_ascending(views_of(r@)),
            decreases n - i,
        {
            let ghost pre_taken = views_of(self.annotations@.take(i as int));
            let a = &self.annotations[i];
            let keep = a.offset < line_end && a.length > 0 && (a.offset >= row_off || a.length
                > row_off - a.offset);
            proof {
                let taken = views_of(self.annotations@.take(i + 1int));
                assert(taken.drop_last() =~= pre_taken);
                assert(taken.last() == self.annotations@[i as int]@);
                assert(keep == overlaps_row(taken.last(), row_off as nat, row_len as nat));
                if keep {
                    assert(row_filter(taken, row_off as nat, row_len as nat) =~= row_filter(
                        pre_taken,
                        row_off as nat,
                        row_len as nat,
                    ).push(taken.last()));
                    let f = row_filter(taken, row_off as nat, row_len as nat);
                    assert(f.drop_last() =~= row_filter(pre_taken, row_off as nat, row_len as nat));
                    assert(sort_by_offset(f) == insert_by_offset(
                        sort_by_offset(row_filter(pre_taken, row_off as nat, row_len as nat)),
                        taken.last(),
                    ));
                } else {
                    assert(row_filter(taken, row_off as nat, row_len as nat) =~= row_filter(
                        pre_taken,
                        row_off as nat,
                        row_len as nat,
                    ));
                }
            }
            if keep {
                let c = a.duplicate();
                insert_sorted(&mut r, c);
            }
            i = i + 1;
        }
        proof {
            assert(self.annotations@.take(n as int) =~= self.annotations@);
            lemma_row_filter_overlaps(self.anns_view(), row_off as nat, row_len as nat);
            lemma_sort_keeps_overlap(
                row_filter(self.anns_view(), row_off as nat, row_len as nat),
                row_off as nat,
                row_len as nat,
            );
        }
        r
    }

    /// Writes the underline-and-label line of one annotation on one row.
    #[verifier::rlimit(100)]
    #[verifier::spinoff_prover]
    fn print_annotation(
        &self,
        out: &mut String,
        line_offset: usize,
        line_length: usize,
        annotation: &Annotation,
    )
        requires
            1 <= line_length <= 16,
            line_offset + line_length <= usize::MAX,
            overlaps_row(annotation@, line_offset as nat, line_length as nat),
        ensures
            final(out)@ == old(out)@ + annotation_line(
                self.colors,
                annotation@,
                line_offset as nat,
                line_length as nat,
            ),
    {
        let line_end = line_offset + line_length;
        let prev = annotation.offset < line_offset;
        let next = annotation.length > line_end - annotation.offset;
        let s_in: usize = if annotation.offset > line_offset {
            annotation.offset - line_offset
        } else {
            0
        };
        let e_in: usize = if !next {
            annotation.offset + annotation.length - line_offset
        } else {
            line_length
        };
        proof {
            assert(s_in as int == start_in_row(annotation@, line_offset as nat));
            assert(e_in as int == end_in_row(annotation@, line_offset as nat, line_length as nat));
            assert(prev == (annotation@.offset < line_offset as nat));
            assert(next == (annotation@.offset + annotation@.length > line_offset as nat
                + line_length as nat));
            assert(s_in < e_in);
        }
        let built = build_underline(s_in, e_in, prev, next);
        let u = built.0;
        let width = built.1;
        out.append(u.as_str());
        let closing = e_in == 16 && !next;
        if closing {
            append_close1(out);
        }
        let target: usize = if closing {
            57
        } else {
            58
        };
        let pad: usize = if width < target {
            target - width
        } else {
            0
        };
        append_spaces(out, pad);
        let has_label = annotation.offset >= line_offset && annotation.offset < line_end;
        if has_label {
            append_spaces(out, 1);
            proof {
                assert(spaces(1) =~= seq![' ']);
            }
            let styled: String = match annotation.kind {
                AnnotationKind::Error => self.colors.error(annotation.label.as_str()),
                AnnotationKind::Normal => self.colors.label(annotation.label.as_str()),
            };
            out.append(styled.as_str());
        }
        append_newline(out);
        proof {
            assert(out@ =~= old(out)@ + annotation_line(
                self.colors,
                annotation@,
                line_offset as nat,
                line_length as nat,
            ));
        }
    }

    /// Writes the address-and-bytes line of one row.
    #[verifier::rlimit(100)]
    #[verifier::spinoff_prover]
    fn hex_row(&self, out: &mut String, data: &Vec<u8>, row_off: usize, row_len: usize)
        requires
            row_len <= 16,
            row_off + row_len <= data@.len(),
            data@.len() <= usize::MAX,
        ensures
            final(out)@ == old(out)@ + hex_row_line(
                self.colors,
                self.anns_view(),
                data@,
                row_off as nat,
                row_len as nat,
            ),
    {
        let addr = addr_string(row_off);
        let styled_addr = self.colors.addr(addr.as_str());
        out.append(styled_addr.as_str());
        append_spaces(out, 2);
        let ghost head = old(out)@ + self.colors.addr_text(addr_str(row_off as nat)) + seq![
            ' ',
            ' ',
        ];
        proof {
            assert(spaces(2) =~= seq![' ', ' ']);
            assert(out@ =~= head + hex_cells(
                self.colors,
                self.anns_view(),
                data@,
                row_off as nat,
                row_len as nat,
                0,
            ));
        }
        let mut i: usize = 0;
        while i < 16
            invariant
                i <= 16,
                row_len <= 16,
                row_off + row_len <= data@.len(),
                data@.len() <= usize::MAX,
                out@ == head + hex_cells(
                    self.colors,
                    self.anns_view(),
                    data@,
                    row_off as nat,
                    row_len as nat,
                    i as int,
                ),
            decreases 16 - i,
        {
            if i < row_len {
                let b = data[row_off + i];
                let h = byte_hex_string(b);
                match self.get_byte_annotation_kind(row_off + i) {
                    Some(AnnotationKind::Normal) => {
                        let styled = self.colors.annotation(h.as_str());
                        out.append(styled.as_str());
                    },
                    Some(AnnotationKind::Error) => {
                        let styled = self.colors.error(h.as_str());
                        out.append(styled.as_str());
                    },
                    None => {
                        out.append(h.as_str());
                    },
                }
                append_spaces(out, 1);
                proof {
                    assert(spaces(1) =~= seq![' ']);
                }
            } else {
                append_spaces(out, 3);
                proof {
                    assert(spaces(3) =~= seq![' ', ' ', ' ']);
                }
            }
            if i == 7 {
                append_spaces(out, 1);
                proof {
                    assert(spaces(1) =~= seq![' ']);
                }
            }
            i = i + 1;
            proof {
                assert(out@ =~= head + hex_cells(
                    self.colors,
                    self.anns_view(),
                    data@,
                    row_off as nat,
                    row_len as nat,
                    i as int,
                ));
            }
        }
        append_newline(out);
        proof {
            assert(out@ =~= old(out)@ + hex_row_line(
                self.colors,
                self.anns_view(),
                data@,
                row_off as nat,
                row_len as nat,
            ));
        }
    }

    /// Renders the whole dump of `data` as text: every 16-byte row with
    /// its underline lines, then the past-the-end address.
    pub fn dump(&self, data: &Vec<u8>) -> (out: String)
        ensures
            out@ == dump_text(self.colors, self.anns_view(), data@),
    {
        let mut out = String::new();
        let n = data.len();
        let mut row_off: usize = 0;
        let ghost mut rows: int = 0;
        proof {
            assert(out@ =~= dump_rows(self.colors, self.anns_view(), data@, 0));
        }
        while row_off < n
            invariant
                n == data@.len(),
                rows >= 0,
                out@ == dump_rows(self.colors, self.anns_view(), data@, rows),
                row_off <= n,
                row_off == 16 * rows || (row_off == n && rows == num_rows(n as nat)),
            decreases n - row_off,
        {
            let row_len = if n - row_off < 16 {
                n - row_off
            } else {
                16
            };
            proof {
                assert(row_off == 16 * rows);
                assert(row_len as nat == row_len_at(data@.len(), row_off as nat));
            }
            self.hex_row(&mut out, data, row_off, row_len);
            let line_anns = self.sorted_row_annotations(row_off, row_len);
            let ghost sorted = row_anns(self.anns_view(), row_off as nat, row_len as nat);
            let m = line_anns.len();
            let mut k: usize = 0;
            while k < m
                invariant
                    k <= m,
                    m == line_anns@.len(),
                    1 <= row_len <= 16,
                    row_off + row_len <= data@.len(),
                    n == data@.len(),
                    views_of(line_anns@) == sorted,
                    forall|j: int|
                        0 <= j < sorted.len() ==> overlaps_row(
                            #[trigger] sorted[j],
                            row_off as nat,
                            row_len as nat,
                        ),
                    out@ == dump_rows(self.colors, self.anns_view(), data@, rows) + hex_row_line(
                        self.colors,
                        self.anns_view(),
                        data@,
                        row_off as nat,
                        row_len as nat,
                    ) + ann_lines(self.colors, sorted, row_off as nat, row_len as nat, k as int),
                decreases m - k,
            {
                let a = &line_anns[k];
                proof {
                    assert(views_of(line_anns@)[k as int] == a@);
                }
                self.print_annotation(&mut out, row_off, row_len, a);
                k = k + 1;
                proof {
                    assert(out@ =~= dump_rows(self.colors, self.anns_view(), data@, rows)
                        + hex_row_line(
                        self.colors,
                        self.anns_view(),
                        data@,
                        row_off as nat,
                        row_len as nat,
                    ) + ann_lines(self.colors, sorted, row_off as nat, row_len as nat, k as int));
                }
            }
            proof {
                rows = rows + 1;
                assert(out@ =~= dump_rows(self.colors, self.anns_view(), data@, rows));
            }
            if row_len == 16 {
                row_off = row_off + 16;
            } else {
                row_off = row_off + row_len;
                proof {
                    assert(row_off == n);
                    assert(rows == num_rows(n as nat));
                }
            }
        }
        proof {
            assert(rows == num_rows(data@.len()));
        }
        let addr = addr_string(n);
        let styled_addr = self.colors.addr(addr.as_str());
        out.append(styled_addr.as_str());
        append_newline(&mut out);
        proof {
            assert(out@ =~= dump_text(self.colors, self.anns_view(), data@));
        }
        out
    }
}

/// Inserts `a` into an offset-sorted vector, behind equal offsets.
fn insert_sorted(v: &mut Vec<Annotation>, a: Annotation)
    requires
        offsets_ascending(views_of(old(v)@)),
    ensures
        views_of(final(v)@) == insert_by_offset(views_of(old(v)@), a@),
        offsets_ascending(views_of(final(v)@)),
{
    let mut j: usize = v.len();
    while j > 0 && v[j - 1].offset > a.offset
        invariant
            j <= v@.len(),
            v@ == old(v)@,
            forall|idx: int|
                j <= idx < v@.len() ==> #[trigger] views_of(v@)[idx].offset > a@.offset,
        decreases j,
    {
        j = j - 1;
    }
    proof {
        let vs = views_of(v@);
        assert forall|idx: int| 0 <= idx < j implies #[trigger] vs[idx].offset <= a@.offset by {
            if j <= v@.len() && j >= 1 {
                assert(vs[idx].offset <= vs[j - 1].offset);
            }
        }
        lemma_insert_by_offset_at(vs, a@, j as int);
        lemma_insert_by_offset_sorted(vs, a@);
    }
    let ghost pre = v@;
    v.insert(j, a);
    proof {
        assert(views_of(v@) =~= views_of(pre).subrange(0, j as int) + seq![a@] + views_of(
            pre,
        ).subrange(j as int, pre.len() as int));
    }
}

} // verus!
