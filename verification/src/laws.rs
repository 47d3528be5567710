//! The library's general guarantees, stated and proved once.
//!
//! Each public proof function here is a law of the crate: a statement
//! over all inputs that the verifier checks against the spec functions
//! the executable contracts use.

use vstd::arithmetic::div_mod::lemma_fundamental_div_mod;
use vstd::arithmetic::div_mod::lemma_fundamental_div_mod_converse;
use vstd::prelude::*;

use crate::codec::ByteOrder;
use crate::codec::DataType;
use crate::codec::le_nat;
use crate::color::ColorScheme;
use crate::render::AnnView;
use crate::render::AnnotationKind;
use crate::render::annotation_line;
use crate::render::end_in_row;
use crate::render::insert_by_offset;
use crate::render::offsets_ascending;
use crate::render::sort_by_offset;
use crate::render::overlaps_row;
use crate::render::lemma_sort_by_offset_sorted;
use crate::render::row_anns;
use crate::render::row_filter;
use crate::render::spaces;
use crate::render::start_in_row;
use crate::render::underline_cell;
use crate::render::underline_cells;
use crate::render::underline_gap;

verus! {

/// The little-endian encoding of `v` in `w` bytes.
pub open spec fn le_bytes(v: nat, w: nat) -> Seq<u8>
    decreases w,
{
    if w == 0 {
        Seq::empty()
    } else {
        seq![(v % 256) as u8] + le_bytes(v / 256, (w - 1) as nat)
    }
}

/// Reading back the little-endian encoding of a value gives the value:
/// the decode side of the codec loses nothing.
pub proof fn lemma_le_round_trip(v: nat, w: nat)
    requires
        v < pow2_bytes(w),
    ensures
        le_bytes(v, w).len() == w,
        le_nat(le_bytes(v, w)) == v,
    decreases w,
{
    if w == 0 {
        assert(pow2_bytes(0) == 1);
        assert(le_nat(Seq::<u8>::empty()) == 0);
    } else {
        assert(pow2_bytes(w) == 256 * pow2_bytes((w - 1) as nat));
        assert(v / 256 < pow2_bytes((w - 1) as nat)) by (nonlinear_arith)
            requires
                v < 256 * pow2_bytes((w - 1) as nat),
        ;
        lemma_le_round_trip(v / 256, (w - 1) as nat);
        let b = le_bytes(v, w);
        assert(b.drop_first() =~= le_bytes(v / 256, (w - 1) as nat));
        assert(b[0] == (v % 256) as u8);
        lemma_fundamental_div_mod(v as int, 256);
        assert(le_nat(b) == (v % 256) + 256 * (v / 256));
    }
}

/// Encoding the value a byte string holds gives the byte string back:
/// distinct inputs of one width decode to distinct values.
pub proof fn lemma_le_nat_injective(b: Seq<u8>)
    ensures
        le_bytes(le_nat(b), b.len()) == b,
    decreases b.len(),
{
    if b.len() > 0 {
        let rest = b.drop_first();
        lemma_le_nat_injective(rest);
        let v = le_nat(b);
        assert(v == b[0] + 256 * le_nat(rest));
        lemma_fundamental_div_mod_converse(v as int, 256, le_nat(rest) as int, b[0] as int);
        assert(v % 256 == b[0]);
        assert(v / 256 == le_nat(rest));
        assert(le_bytes(v, b.len()) =~= b);
    }
}

/// 2^(8w), the number of values `w` bytes can hold.
pub open spec fn pow2_bytes(w: nat) -> nat
    decreases w,
{
    if w == 0 {
        1
    } else {
        256 * pow2_bytes((w - 1) as nat)
    }
}

/// The big-endian encoding of `v` in `w` bytes.
pub open spec fn be_bytes(v: nat, w: nat) -> Seq<u8>
    decreases w,
{
    if w == 0 {
        Seq::empty()
    } else {
        be_bytes(v / 256, (w - 1) as nat).push((v % 256) as u8)
    }
}

/// As `lemma_le_round_trip`, for the big-endian reading.
pub proof fn lemma_be_round_trip(v: nat, w: nat)
    requires
        v < pow2_bytes(w),
    ensures
        be_bytes(v, w).len() == w,
        crate::codec::be_nat(be_bytes(v, w)) == v,
    decreases w,
{
    if w > 0 {
        assert(pow2_bytes(w) == 256 * pow2_bytes((w - 1) as nat));
        assert(v / 256 < pow2_bytes((w - 1) as nat)) by (nonlinear_arith)
            requires
                v < 256 * pow2_bytes((w - 1) as nat),
        ;
        lemma_be_round_trip(v / 256, (w - 1) as nat);
        let b = be_bytes(v, w);
        assert(b.drop_last() =~= be_bytes(v / 256, (w - 1) as nat));
        assert(b.last() == (v % 256) as u8);
        lemma_fundamental_div_mod(v as int, 256);
    }
}

proof fn lemma_dec_str_min_len(n: nat)
    ensures
        crate::numtext::dec_str(n).len() >= 1,
        n >= 10 ==> crate::numtext::dec_str(n).len() >= 2,
    decreases n,
{
    if n >= 10 {
        lemma_dec_str_min_len(n / 10);
    }
}

/// The decimal text of a value determines the value: reading a decoded
/// integer label back gives exactly the number that was decoded.
pub proof fn lemma_dec_str_injective(a: nat, b: nat)
    requires
        crate::numtext::dec_str(a) == crate::numtext::dec_str(b),
    ensures
        a == b,
    decreases a,
{
    let sa = crate::numtext::dec_str(a);
    let sb = crate::numtext::dec_str(b);
    lemma_dec_str_min_len(a);
    lemma_dec_str_min_len(b);
    if a < 10 && b < 10 {
        assert(sa[0] == crate::numtext::digit_char(a));
        assert(sb[0] == crate::numtext::digit_char(b));
    } else if a < 10 {
        assert(sa.len() == 1);
        assert(sb.len() >= 2);
    } else if b < 10 {
        assert(sb.len() == 1);
        assert(sa.len() >= 2);
    } else {
        assert(sa.last() == crate::numtext::digit_char(a % 10));
        assert(sb.last() == crate::numtext::digit_char(b % 10));
        assert(a % 10 == b % 10);
        assert(sa.drop_last() =~= crate::numtext::dec_str(a / 10));
        assert(sb.drop_last() =~= crate::numtext::dec_str(b / 10));
        lemma_dec_str_injective(a / 10, b / 10);
        lemma_fundamental_div_mod(a as int, 10);
        lemma_fundamental_div_mod(b as int, 10);
    }
}

/// Decoding reads nothing but the type's own bytes: two buffers that
/// agree on the first `size` bytes decode to the same text, whatever
/// else they hold.
pub proof fn lemma_decode_depends_on_window(
    dt: DataType,
    b1: Seq<u8>,
    b2: Seq<u8>,
    order: ByteOrder,
)
    requires
        b1.take(dt.spec_size() as int) == b2.take(dt.spec_size() as int),
    ensures
        dt.decoded_text(b1, order) == dt.decoded_text(b2, order),
{
}

/// Whatever order annotations were added in, the ones rendered under a
/// row stand in ascending order of offset.
pub proof fn lemma_rendered_order(anns: Seq<AnnView>, row_off: nat, row_len: nat)
    ensures
        offsets_ascending(row_anns(anns, row_off, row_len)),
{
    lemma_sort_by_offset_sorted(row_filter(anns, row_off, row_len));
}

proof fn lemma_insert_by_offset_multiset(sorted: Seq<AnnView>, a: AnnView)
    ensures
        insert_by_offset(sorted, a).to_multiset() == sorted.to_multiset().insert(a),
    decreases sorted.len(),
{
    broadcast use vstd::seq_lib::group_to_multiset_ensures;

    if sorted.len() == 0 {
        assert(seq![a] =~= Seq::<AnnView>::empty().push(a));
        assert(insert_by_offset(sorted, a).to_multiset() =~= sorted.to_multiset().insert(a));
    } else if sorted.last().offset <= a.offset {
        assert(insert_by_offset(sorted, a).to_multiset() =~= sorted.to_multiset().insert(a));
    } else {
        let head = sorted.drop_last();
        lemma_insert_by_offset_multiset(head, a);
        assert(sorted =~= head.push(sorted.last()));
        assert(insert_by_offset(sorted, a).to_multiset() =~= head.to_multiset().insert(a).insert(
            sorted.last(),
        ));
        assert(head.to_multiset().insert(a).insert(sorted.last()) =~= head.to_multiset().insert(
            sorted.last(),
        ).insert(a));
        assert(insert_by_offset(sorted, a).to_multiset() =~= sorted.to_multiset().insert(a));
    }
}

/// Sorting for rendering is a pure reordering: under each row, every
/// overlapping annotation appears exactly once.
pub proof fn lemma_rendered_permutation(anns: Seq<AnnView>, row_off: nat, row_len: nat)
    ensures
        row_anns(anns, row_off, row_len).to_multiset() == row_filter(
            anns,
            row_off,
            row_len,
        ).to_multiset(),
{
    lemma_sort_multiset(row_filter(anns, row_off, row_len));
}

proof fn lemma_sort_multiset(s: Seq<AnnView>)
    ensures
        sort_by_offset(s).to_multiset() == s.to_multiset(),
    decreases s.len(),
{
    broadcast use vstd::seq_lib::group_to_multiset_ensures;

    if s.len() == 0 {
        assert(sort_by_offset(s).to_multiset() =~= s.to_multiset());
    } else {
        let head = s.drop_last();
        lemma_sort_multiset(head);
        lemma_insert_by_offset_multiset(sort_by_offset(head), s.last());
        assert(s =~= head.push(s.last()));
        assert(sort_by_offset(s).to_multiset() =~= s.to_multiset());
    }
}

/// The elements whose offset is exactly `off`.
pub open spec fn has_offset(off: nat) -> spec_fn(AnnView) -> bool {
    |x: AnnView| x.offset == off
}

proof fn lemma_insert_by_offset_stable(sorted: Seq<AnnView>, a: AnnView, off: nat)
    ensures
        insert_by_offset(sorted, a).filter(has_offset(off)) == (if a.offset == off {
            sorted.filter(has_offset(off)).push(a)
        } else {
            sorted.filter(has_offset(off))
        }),
    decreases sorted.len(),
{
    reveal(Seq::filter);
    let p = has_offset(off);
    assert(p(a) == (a.offset == off));
    if sorted.len() == 0 {
        assert(insert_by_offset(sorted, a) == seq![a]);
        assert(sorted =~= Seq::<AnnView>::empty());
        assert(sorted.filter(p) == sorted);
        assert(seq![a].drop_last() =~= sorted);
        assert(seq![a].last() == a);
        assert(seq![a].filter(p) == (if p(a) {
            sorted.filter(p).push(a)
        } else {
            sorted.filter(p)
        }));
    } else if sorted.last().offset <= a.offset {
        assert(sorted.push(a).drop_last() =~= sorted);
        assert(sorted.push(a).last() == a);
        assert(sorted.push(a).filter(p) == (if p(a) {
            sorted.filter(p).push(a)
        } else {
            sorted.filter(p)
        }));
    } else {
        let head = sorted.drop_last();
        lemma_insert_by_offset_stable(head, a, off);
        let inner = insert_by_offset(head, a);
        assert(insert_by_offset(sorted, a) == inner.push(sorted.last()));
        assert(inner.push(sorted.last()).drop_last() =~= inner);
        assert(inner.push(sorted.last()).last() == sorted.last());
        assert(inner.push(sorted.last()).filter(p) == (if p(sorted.last()) {
            inner.filter(p).push(sorted.last())
        } else {
            inner.filter(p)
        }));
        assert(sorted =~= head.push(sorted.last()));
        assert(head.push(sorted.last()).drop_last() =~= head);
        assert(sorted.filter(p) == (if p(sorted.last()) {
            head.filter(p).push(sorted.last())
        } else {
            head.filter(p)
        }));
        assert(sorted.last().offset > a.offset);
        if a.offset == off {
            assert(!p(sorted.last()));
            assert(inner.filter(p) == head.filter(p).push(a));
            assert(sorted.filter(p) == head.filter(p));
        } else {
            assert(inner.filter(p) == head.filter(p));
        }
    }
}

/// Sorting for rendering is stable: annotations that share an offset
/// keep the order they were added in.  (Among equal offsets, the
/// rendered order is exactly the insertion order.)
pub proof fn lemma_rendered_order_stable(s: Seq<AnnView>, off: nat)
    ensures
        sort_by_offset(s).filter(has_offset(off)) == s.filter(has_offset(off)),
    decreases s.len(),
{
    reveal(Seq::filter);
    let p = has_offset(off);
    if s.len() > 0 {
        let head = s.drop_last();
        lemma_rendered_order_stable(head, off);
        lemma_insert_by_offset_stable(sort_by_offset(head), s.last(), off);
    }
}

/// The width of the first `upto` underline cells.
pub open spec fn cells_width(s: int, e: int, next: bool, upto: int) -> int {
    3 * upto - (if e < upto {
        1int
    } else {
        0int
    }) - (if upto == 16 && e == 16 && !next && s <= 14 {
        1int
    } else {
        0int
    }) + (if upto > 7 && s != 7 {
        1int
    } else {
        0int
    })
}

proof fn lemma_cells_len(s: int, e: int, prev: bool, next: bool, upto: int)
    requires
        0 <= s < e <= 16,
        0 <= upto <= 16,
    ensures
        underline_cells(s, e, prev, next, upto).len() == cells_width(s, e, next, upto),
    decreases upto,
{
    if upto > 0 {
        lemma_cells_len(s, e, prev, next, upto - 1);
        let i = upto - 1;
        assert(underline_cell(i, s, e, prev, next).len() == (if i == e {
            2int
        } else if s < i && i < e && i == e - 1 && e == 16 && !next {
            2int
        } else {
            3int
        }));
        if i == 7 {
            assert(underline_gap(s, e).len() == (if s == 7 {
                0int
            } else {
                1int
            }));
        }
    } else {
        assert(underline_cells(s, e, prev, next, 0) =~= Seq::<char>::empty());
    }
}

proof fn lemma_cells_prefix(s: int, e: int, prev: bool, next: bool, u1: int, u2: int)
    requires
        0 <= u1 <= u2 <= 16,
    ensures
        underline_cells(s, e, prev, next, u1).len() <= underline_cells(s, e, prev, next, u2).len(),
        forall|idx: int|
            0 <= idx < underline_cells(s, e, prev, next, u1).len() ==> underline_cells(
                s,
                e,
                prev,
                next,
                u2,
            )[idx] == underline_cells(s, e, prev, next, u1)[idx],
    decreases u2,
{
    if u1 < u2 {
        lemma_cells_prefix(s, e, prev, next, u1, u2 - 1);
    }
}

/// Label column alignment: on the row where an annotation starts, its
/// label always begins at character column 59, whatever the underline
/// shape — in particular also when the range ends exactly at position
/// 16.  The single untreated layout corner is a one-byte range at the
/// row's final position, which this law leaves out.
pub proof fn lemma_label_column(c: ColorScheme, a: AnnView, row_off: nat, row_len: nat)
    requires
        overlaps_row(a, row_off, row_len),
        row_len <= 16,
        row_off <= a.offset,
        !(start_in_row(a, row_off) == 15 && end_in_row(a, row_off, row_len) == 16 && a.offset
            + a.length <= row_off + row_len),
    ensures
        ({
            let line = annotation_line(c, a, row_off, row_len);
            let styled = if a.kind == AnnotationKind::Error {
                c.error_text(a.label)
            } else {
                c.label_text(a.label)
            };
            line.len() == 60 + styled.len() && line.subrange(59, 59 + styled.len() as int)
                == styled
        }),
{
    let s = start_in_row(a, row_off);
    let e = end_in_row(a, row_off, row_len);
    let prev = a.offset < row_off;
    let next = a.offset + a.length > row_off + row_len;
    lemma_cells_len(s, e, prev, next, 16);
    let line = annotation_line(c, a, row_off, row_len);
    let styled = if a.kind == AnnotationKind::Error {
        c.error_text(a.label)
    } else {
        c.label_text(a.label)
    };
    let closing = e == 16 && !next;
    let base = spaces(9) + underline_cells(s, e, prev, next, 16);
    let target: int = if closing {
        57
    } else {
        58
    };
    let pad: int = if base.len() < target {
        target - base.len()
    } else {
        0
    };
    assert(base.len() + (if closing {
        1int
    } else {
        0int
    }) + pad == 58);
    assert(line =~= base + (if closing {
        seq!['┘']
    } else {
        Seq::<char>::empty()
    }) + spaces(pad as nat) + (seq![' '] + styled) + seq!['\n']);
    assert(line.len() == 60 + styled.len());
    assert(line.subrange(59, 59 + styled.len() as int) =~= styled);
}

/// A one-byte annotation that lies on one row draws exactly an opening
/// corner, a two-column run and a closing corner — the `└──┘` glyph —
/// at its byte's cell.
pub proof fn lemma_single_byte_glyphs(c: ColorScheme, a: AnnView, row_off: nat, row_len: nat)
    requires
        overlaps_row(a, row_off, row_len),
        row_len <= 16,
        a.length == 1,
        row_off <= a.offset,
    ensures
        ({
            let line = annotation_line(c, a, row_off, row_len);
            let s = start_in_row(a, row_off);
            let p = 9 + 3 * s + (if s > 7 {
                1int
            } else {
                0int
            });
            line.subrange(p, p + 4) == seq!['└', '─', '─', '┘']
        }),
{
    let s = start_in_row(a, row_off);
    let e = end_in_row(a, row_off, row_len);
    let prev = a.offset < row_off;
    let next = a.offset + a.length > row_off + row_len;
    assert(!prev && !next);
    assert(e == s + 1);
    let p = 9 + 3 * s + (if s > 7 {
        1int
    } else {
        0int
    });
    let line = annotation_line(c, a, row_off, row_len);
    let full = underline_cells(s, e, prev, next, 16);
    lemma_cells_len(s, e, prev, next, s);
    lemma_cells_len(s, e, prev, next, 16);
    assert(underline_cells(s, e, prev, next, s).len() == p - 9);
    if e < 16 {
        assert(underline_cells(s, e, prev, next, s + 1) =~= underline_cells(
            s,
            e,
            prev,
            next,
            s,
        ) + seq!['└', '─', '─']);
        assert(underline_cells(s, e, prev, next, s + 2) =~= underline_cells(
            s,
            e,
            prev,
            next,
            s + 1,
        ) + seq!['┘', ' '] + (if s + 1 == 7 {
            underline_gap(s, e)
        } else {
            Seq::<char>::empty()
        }));
        lemma_cells_prefix(s, e, prev, next, s + 2, 16);
        assert(full.subrange(p - 9, p - 9 + 4) =~= seq!['└', '─', '─', '┘']);
        let base = spaces(9) + full;
        assert(base.subrange(p, p + 4) =~= seq!['└', '─', '─', '┘']);
        assert(line.subrange(p, p + 4) =~= seq!['└', '─', '─', '┘']);
    } else {
        assert(s == 15);
        assert(underline_cells(s, e, prev, next, 16) =~= underline_cells(
            s,
            e,
            prev,
            next,
            15,
        ) + seq!['└', '─', '─']);
        let base = spaces(9) + full;
        assert(base.len() == p + 3);
        assert(base.subrange(p, p + 3) =~= seq!['└', '─', '─']);
        assert(line =~= base + seq!['┘'] + spaces(0) + (seq![' '] + (if a.kind
            == AnnotationKind::Error {
            c.error_text(a.label)
        } else {
            c.label_text(a.label)
        })) + seq!['\n']);
        assert(line.subrange(p, p + 4) =~= seq!['└', '─', '─', '┘']);
    }
}

proof fn lemma_run_chars(s: int, e: int, prev: bool, next: bool, upto: int)
    requires
        0 <= s < e < 16,
        s < upto <= e,
        !prev,
    ensures
        forall|idx: int|
            cells_width(s, e, next, s) <= idx < cells_width(s, e, next, upto)
                ==> #[trigger] underline_cells(s, e, prev, next, upto)[idx] == (if idx
                == cells_width(s, e, next, s) {
                '└'
            } else {
                '─'
            }),
    decreases upto,
{
    lemma_cells_len(s, e, prev, next, upto);
    lemma_cells_len(s, e, prev, next, s);
    let whole = underline_cells(s, e, prev, next, upto);
    let head = underline_cells(s, e, prev, next, upto - 1);
    let piece = underline_cell(upto - 1, s, e, prev, next);
    let gap: Seq<char> = if upto - 1 == 7 {
        underline_gap(s, e)
    } else {
        Seq::<char>::empty()
    };
    if upto == s + 1 {
        assert(piece =~= seq!['└', '─', '─']);
        assert forall|idx: int|
            cells_width(s, e, next, s) <= idx < cells_width(s, e, next, upto) implies #[trigger] whole[idx]
            == (if idx == cells_width(s, e, next, s) {
            '└'
        } else {
            '─'
        }) by {
            if idx < head.len() + piece.len() {
                assert(whole[idx] == piece[idx - head.len()]);
            } else {
                assert(whole[idx] == gap[idx - head.len() - piece.len()]);
                assert(s == 7);
                assert(gap.len() == 0);
            }
        }
    } else {
        lemma_run_chars(s, e, prev, next, upto - 1);
        lemma_cells_len(s, e, prev, next, upto - 1);
        assert(piece =~= seq!['─', '─', '─']);
        if upto - 1 == 7 {
            assert(gap =~= seq!['─']);
        }
        assert forall|idx: int|
            cells_width(s, e, next, s) <= idx < cells_width(s, e, next, upto) implies #[trigger] whole[idx]
            == (if idx == cells_width(s, e, next, s) {
            '└'
        } else {
            '─'
        }) by {
            if idx < head.len() {
                assert(whole[idx] == head[idx]);
            } else if idx < head.len() + piece.len() {
                assert(whole[idx] == piece[idx - head.len()]);
            } else {
                assert(whole[idx] == gap[idx - head.len() - piece.len()]);
            }
        }
    }
}

/// A multi-byte annotation that lies on one row (ending before position
/// 16) draws an opening corner at its first byte's cell, one unbroken
/// horizontal run over its range — the mid-row gap included — and a
/// closing corner just past its last byte.
pub proof fn lemma_contained_run(c: ColorScheme, a: AnnView, row_off: nat, row_len: nat)
    requires
        overlaps_row(a, row_off, row_len),
        1 <= row_len <= 16,
        row_off <= a.offset,
        a.offset + a.length <= row_off + row_len,
        a.offset + a.length - row_off < 16,
    ensures
        ({
            let line = annotation_line(c, a, row_off, row_len);
            let s = start_in_row(a, row_off);
            let e = end_in_row(a, row_off, row_len);
            let p = 9 + 3 * s + (if s > 7 {
                1int
            } else {
                0int
            });
            let q = 9 + 3 * e + (if e > 7 && s != 7 {
                1int
            } else {
                0int
            });
            &&& line[p] == '└'
            &&& line[q] == '┘'
            &&& forall|idx: int| p < idx < q ==> line[idx] == '─'
        }),
{
    let s = start_in_row(a, row_off);
    let e = end_in_row(a, row_off, row_len);
    let prev = a.offset < row_off;
    let next = a.offset + a.length > row_off + row_len;
    assert(!prev && !next);
    assert(0 <= s < e < 16);
    let line = annotation_line(c, a, row_off, row_len);
    let full = underline_cells(s, e, prev, next, 16);
    let base = spaces(9) + full;
    let p = 9 + 3 * s + (if s > 7 {
        1int
    } else {
        0int
    });
    let q = 9 + 3 * e + (if e > 7 && s != 7 {
        1int
    } else {
        0int
    });
    lemma_cells_len(s, e, prev, next, s);
    lemma_cells_len(s, e, prev, next, e);
    lemma_cells_len(s, e, prev, next, 16);
    assert(cells_width(s, e, next, s) == p - 9);
    assert(cells_width(s, e, next, e) == q - 9);
    lemma_run_chars(s, e, prev, next, e);
    lemma_cells_prefix(s, e, prev, next, e, 16);
    assert(underline_cells(s, e, prev, next, e + 1) =~= underline_cells(s, e, prev, next, e)
        + seq!['┘', ' '] + (if e == 7 {
        underline_gap(s, e)
    } else {
        Seq::<char>::empty()
    }));
    lemma_cells_prefix(s, e, prev, next, e + 1, 16);
    assert(full[q - 9] == '┘');
    assert(full[p - 9] == '└');
    assert forall|idx: int| p < idx < q implies line[idx] == '─' by {
        assert(underline_cells(s, e, prev, next, e)[idx - 9] == '─');
        assert(full[idx - 9] == '─');
        assert(base[idx] == full[idx - 9]);
        assert(line[idx] == base[idx]);
    }
    assert(line[p] == base[p]);
    assert(line[q] == base[q]);
}

/// No underline glyph of a row is a closing corner while the annotation
/// continues onto the next row; its label still stands on the row where
/// it starts, so a closing corner can only ever come from label text,
/// which begins at column 59.
pub proof fn lemma_spanning_no_closing(c: ColorScheme, a: AnnView, row_off: nat, row_len: nat)
    requires
        overlaps_row(a, row_off, row_len),
        1 <= row_len <= 16,
        a.offset + a.length > row_off + row_len,
    ensures
        forall|idx: int|
            0 <= idx < annotation_line(c, a, row_off, row_len).len() && annotation_line(
                c,
                a,
                row_off,
                row_len,
            )[idx] == '┘' ==> idx >= 59,
{
    let s = start_in_row(a, row_off);
    let e = end_in_row(a, row_off, row_len);
    let prev = a.offset < row_off;
    let next = true;
    assert(0 <= s < e <= 16);
    lemma_cells_len(s, e, prev, next, 16);
    lemma_cells_no_closing(s, e, prev, next, 16);
    let line = annotation_line(c, a, row_off, row_len);
    let base = spaces(9) + underline_cells(s, e, prev, next, 16);
    let pad: int = if base.len() < 58 {
        58 - base.len()
    } else {
        0
    };
    assert(base.len() + pad == 58);
    assert forall|idx: int| 0 <= idx < line.len() && line[idx] == '┘' implies idx >= 59 by {
        if idx < base.len() {
            if idx < 9 {
                assert(base[idx] == ' ');
            } else {
                assert(base[idx] == underline_cells(s, e, prev, next, 16)[idx - 9]);
            }
        } else if idx < 58 {
            assert(line[idx] == ' ');
        } else if idx == 58 {
            if row_off <= a.offset && a.offset < row_off + row_len {
                assert(line[58] == ' ');
            } else {
                assert(line[58] == '\n');
            }
        }
    }
}

proof fn lemma_cells_no_closing(s: int, e: int, prev: bool, next: bool, upto: int)
    requires
        0 <= s < e <= 16,
        0 <= upto <= 16,
        next,
    ensures
        forall|idx: int|
            0 <= idx < underline_cells(s, e, prev, next, upto).len() ==> underline_cells(
                s,
                e,
                prev,
                next,
                upto,
            )[idx] != '┘',
    decreases upto,
{
    if upto > 0 {
        lemma_cells_no_closing(s, e, prev, next, upto - 1);
        let whole = underline_cells(s, e, prev, next, upto);
        let head = underline_cells(s, e, prev, next, upto - 1);
        let piece = underline_cell(upto - 1, s, e, prev, next);
        let gap: Seq<char> = if upto - 1 == 7 {
            underline_gap(s, e)
        } else {
            Seq::<char>::empty()
        };
        assert forall|idx: int| 0 <= idx < whole.len() implies whole[idx] != '┘' by {
            if idx < head.len() {
                assert(whole[idx] == head[idx]);
            } else if idx < head.len() + piece.len() {
                assert(whole[idx] == piece[idx - head.len()]);
            } else {
                assert(whole[idx] == gap[idx - head.len() - piece.len()]);
            }
        }
    }
}

proof fn lemma_cells_no_opening(s: int, e: int, prev: bool, next: bool, upto: int)
    requires
        0 <= s < e <= 16,
        0 <= upto <= 16,
        prev,
    ensures
        forall|idx: int|
            0 <= idx < underline_cells(s, e, prev, next, upto).len() ==> underline_cells(
                s,
                e,
                prev,
                next,
                upto,
            )[idx] != '└',
    decreases upto,
{
    if upto > 0 {
        lemma_cells_no_opening(s, e, prev, next, upto - 1);
        let whole = underline_cells(s, e, prev, next, upto);
        let head = underline_cells(s, e, prev, next, upto - 1);
        let piece = underline_cell(upto - 1, s, e, prev, next);
        let gap: Seq<char> = if upto - 1 == 7 {
            underline_gap(s, e)
        } else {
            Seq::<char>::empty()
        };
        assert forall|idx: int| 0 <= idx < whole.len() implies whole[idx] != '└' by {
            if idx < head.len() {
                assert(whole[idx] == head[idx]);
            } else if idx < head.len() + piece.len() {
                assert(whole[idx] == piece[idx - head.len()]);
            } else {
                assert(whole[idx] == gap[idx - head.len() - piece.len()]);
            }
        }
    }
}

/// A continuation row never repeats the opening corner or the label; if
/// the annotation ends on that row, its closing corner stands there.
pub proof fn lemma_continuation_row(c: ColorScheme, a: AnnView, row_off: nat, row_len: nat)
    requires
        overlaps_row(a, row_off, row_len),
        1 <= row_len <= 16,
        a.offset < row_off,
    ensures
        forall|idx: int|
            0 <= idx < annotation_line(c, a, row_off, row_len).len() ==> annotation_line(
                c,
                a,
                row_off,
                row_len,
            )[idx] != '└',
        a.offset + a.length <= row_off + row_len ==> exists|idx: int|
            0 <= idx < annotation_line(c, a, row_off, row_len).len() && annotation_line(
                c,
                a,
                row_off,
                row_len,
            )[idx] == '┘',
{
    let s = start_in_row(a, row_off);
    let e = end_in_row(a, row_off, row_len);
    let prev = true;
    let next = a.offset + a.length > row_off + row_len;
    assert(s == 0);
    assert(0 <= s < e <= 16);
    lemma_cells_len(s, e, prev, next, 16);
    lemma_cells_no_opening(s, e, prev, next, 16);
    let line = annotation_line(c, a, row_off, row_len);
    let full = underline_cells(s, e, prev, next, 16);
    let base = spaces(9) + full;
    let closing = e == 16 && !next;
    assert(!(row_off <= a.offset && a.offset < row_off + row_len));
    let target: int = if closing {
        57
    } else {
        58
    };
    let pad: int = if base.len() < target {
        target - base.len()
    } else {
        0
    };
    assert(line =~= base + (if closing {
        seq!['┘']
    } else {
        Seq::<char>::empty()
    }) + spaces(pad as nat) + seq!['\n']);
    assert forall|idx: int| 0 <= idx < line.len() implies line[idx] != '└' by {
        if idx < 9 {
            assert(line[idx] == ' ');
        } else if idx < base.len() {
            assert(line[idx] == full[idx - 9]);
        }
    }
    if a.offset + a.length <= row_off + row_len {
        if e == 16 {
            assert(line[base.len() as int] == '┘');
        } else {
            lemma_cells_len(s, e, prev, next, e);
            assert(underline_cells(s, e, prev, next, e + 1) =~= underline_cells(
                s,
                e,
                prev,
                next,
                e,
            ) + seq!['┘', ' '] + (if e == 7 {
                underline_gap(s, e)
            } else {
                Seq::<char>::empty()
            }));
            lemma_cells_prefix(s, e, prev, next, e + 1, 16);
            let q = 9 + cells_width(s, e, next, e);
            assert(full[q - 9] == '┘');
            assert(line[q] == '┘');
        }
    }
}

} // verus!
