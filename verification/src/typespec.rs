//! The type-specification compiler.
//!
//! A token is either `.N` — skip N bits, a positive multiple of eight —
//! or `type` / `type:field` for a scalar to decode and annotate.  The
//! token list is parsed first (any malformed token fails the whole call
//! before a byte is read); the walk then moves a cursor through the
//! buffer and emits one annotation per scalar.  A scalar that runs out
//! of data emits an error annotation and ends the walk; a skip that
//! runs out aborts with only an error.

use vstd::prelude::*;
use vstd::string::StrSliceExecFns;
use vstd::string::StringExecFns;

use crate::codec::ByteOrder;
use crate::codec::DataType;
use crate::codec::spelled_type;
use crate::errors::HexError;
use crate::numtext::append_u64_dec;
use crate::numtext::dec_str;
use crate::render::AnnView;
use crate::render::Annotation;
use crate::render::AnnotationKind;
use crate::render::views_of;

verus! {

/// The digit a character stands for, or -1.
pub open spec fn digit_of(c: char) -> int {
    if c == '0' {
        0
    } else if c == '1' {
        1
    } else if c == '2' {
        2
    } else if c == '3' {
        3
    } else if c == '4' {
        4
    } else if c == '5' {
        5
    } else if c == '6' {
        6
    } else if c == '7' {
        7
    } else if c == '8' {
        8
    } else if c == '9' {
        9
    } else {
        -1
    }
}

/// A nonempty run of decimal digits.
pub open spec fn all_digits(s: Seq<char>) -> bool {
    s.len() > 0 && (forall|i: int| 0 <= i < s.len() ==> digit_of(#[trigger] s[i]) >= 0)
}

/// The number a digit run spells.
pub open spec fn dec_val(s: Seq<char>) -> nat
    decreases s.len(),
{
    if s.len() == 0 {
        0
    } else {
        (dec_val(s.drop_last()) * 10 + digit_of(s.last())) as nat
    }
}

/// Index of the first ':' in `t` at or after `i`, or -1.
pub open spec fn first_colon_from(t: Seq<char>, i: int) -> int
    recommends
        0 <= i,
    decreases t.len() - i when 0 <= i <= t.len()
{
    if i >= t.len() {
        -1
    } else if t[i] == ':' {
        i
    } else {
        first_colon_from(t, i + 1)
    }
}

/// What a well-formed token asks for.
pub enum TokenMeaning {
    /// Decode a scalar and label it with `display`.
    TScalar { dt: DataType, display: Seq<char> },
    /// Advance the cursor by `bytes` bytes.
    TSkip { bytes: nat },
}

/// The meaning of a token, or None if it is malformed.
pub open spec fn token_meaning(t: Seq<char>) -> Option<TokenMeaning> {
    if t.len() > 0 && t[0] == '.' {
        let rest = t.skip(1);
        if all_digits(rest) && dec_val(rest) <= u64::MAX && dec_val(rest) > 0 && dec_val(rest) % 8
            == 0 {
            Some(TokenMeaning::TSkip { bytes: dec_val(rest) / 8 })
        } else {
            None
        }
    } else {
        let ci = first_colon_from(t, 0);
        if ci >= 0 {
            if ci + 1 == t.len() {
                None
            } else {
                match spelled_type(t.take(ci)) {
                    Some(dt) => Some(TokenMeaning::TScalar { dt, display: t.skip(ci + 1) }),
                    None => None,
                }
            }
        } else {
            match spelled_type(t) {
                Some(dt) => Some(TokenMeaning::TScalar { dt, display: dt.spec_name() }),
                None => None,
            }
        }
    }
}

/// The error a malformed token is reported with.
pub open spec fn token_error_matches(t: Seq<char>, e: HexError) -> bool {
    if t.len() > 0 && t[0] == '.' {
        let rest = t.skip(1);
        if !all_digits(rest) || dec_val(rest) > u64::MAX {
            e matches HexError::InvalidSkipSyntax { token } && token@ == t
        } else if dec_val(rest) == 0 {
            e matches HexError::SkipSizeZero
        } else {
            e matches HexError::SkipNotByteAligned { bits } && bits == dec_val(rest)
        }
    } else {
        let ci = first_colon_from(t, 0);
        if ci >= 0 {
            if ci + 1 == t.len() {
                e matches HexError::EmptyFieldName { token } && token@ == t
            } else {
                e matches HexError::UnknownType { given } && given@ == t.take(ci)
            }
        } else {
            e matches HexError::UnknownType { given } && given@ == t
        }
    }
}

/// One parsed token.
#[derive(Debug)]
pub enum TypeSpec {
    /// Decode a scalar, labeled with the field name if one was given.
    Scalar { data_type: DataType, field_name: Option<String> },
    /// Advance the cursor by this many bits (a multiple of eight).
    Skip { bits: u64 },
}

impl TypeSpec {
    /// The meaning this parsed token carries.
    pub open spec fn meaning(self) -> TokenMeaning {
        match self {
            TypeSpec::Scalar { data_type, field_name: Some(f) } => TokenMeaning::TScalar {
                dt: data_type,
                display: f@,
            },
            TypeSpec::Scalar { data_type, field_name: None } => TokenMeaning::TScalar {
                dt: data_type,
                display: data_type.spec_name(),
            },
            TypeSpec::Skip { bits } => TokenMeaning::TSkip { bytes: (bits / 8) as nat },
        }
    }

    /// Parses one token.
    pub fn from_str(s: &str) -> (r: Result<TypeSpec, HexError>)
        ensures
            token_meaning(s@) matches Some(m) ==> (r matches Ok(ts) && ts.meaning() == m),
            token_meaning(s@) is None ==> (r matches Err(e) && token_error_matches(s@, e)),
    {
        let n = s.unicode_len();
        if n > 0 && s.get_char(0) == '.' {
            let mut val: u64 = 0;
            let mut i: usize = 1;
            proof {
                assert(s@.skip(1).take(0int) =~= Seq::<char>::empty());
            }
            if n == 1 {
                let bad = HexError::InvalidSkipSyntax { token: s.to_owned() };
                proof {
                    assert(!all_digits(s@.skip(1)));
                    assert(token_meaning(s@) is None);
                    assert(token_error_matches(s@, bad));
                }
                return Err(bad);
            }
            while i < n
                invariant
                    1 <= i <= n,
                    n == s@.len(),
                    n >= 2,
                    s@[0] == '.',
                    forall|j: int| 0 <= j < i - 1 ==> digit_of(#[trigger] s@.skip(1)[j]) >= 0,
                    val as nat == dec_val(s@.skip(1).take(i - 1)),
                decreases n - i,
            {
                let c = s.get_char(i);
                let d: u64 = match c {
                    '0' => 0,
                    '1' => 1,
                    '2' => 2,
                    '3' => 3,
                    '4' => 4,
                    '5' => 5,
                    '6' => 6,
                    '7' => 7,
                    '8' => 8,
                    '9' => 9,
                    _ => {
                        let bad = HexError::InvalidSkipSyntax { token: s.to_owned() };
                        proof {
                            assert(s@.skip(1)[i - 1] == c);
                            assert(!all_digits(s@.skip(1)));
                            assert(token_meaning(s@) is None);
                            assert(token_error_matches(s@, bad));
                        }
                        return Err(bad);
                    },
                };
                proof {
                    assert(d == digit_of(c));
                }
                if val > (u64::MAX - d) / 10 {
                    let bad = HexError::InvalidSkipSyntax { token: s.to_owned() };
                    proof {
                        let rest = s@.skip(1);
                        assert(rest.take(i as int).drop_last() =~= rest.take(i - 1));
                        assert(rest.take(i as int).last() == c);
                        assert(dec_val(rest.take(i as int)) > u64::MAX);
                        lemma_dec_val_extend(rest, i as int, rest.len() as int);
                        assert(rest.take(rest.len() as int) =~= rest);
                        assert(dec_val(rest) > u64::MAX);
                        assert(token_meaning(s@) is None);
                        assert(token_error_matches(s@, bad));
                    }
                    return Err(bad);
                }
                val = val * 10 + d;
                i = i + 1;
                proof {
                    let rest = s@.skip(1);
                    assert(rest.take(i - 1).drop_last() =~= rest.take(i - 2));
                    assert(rest.take(i - 1).last() == c);
                    assert(rest[i - 2] == c);
                }
            }
            proof {
                assert(s@.skip(1).take(n - 1) =~= s@.skip(1));
                assert(all_digits(s@.skip(1)));
                assert(val as nat == dec_val(s@.skip(1)));
            }
            if val == 0 {
                return Err(HexError::SkipSizeZero);
            }
            if val % 8 != 0 {
                return Err(HexError::SkipNotByteAligned { bits: val });
            }
            Ok(TypeSpec::Skip { bits: val })
        } else {
            let mut i: usize = 0;
            let mut found = false;
            while !found && i < n
                invariant
                    0 <= i <= n,
                    n == s@.len(),
                    !found ==> first_colon_from(s@, 0) == first_colon_from(s@, i as int),
                    found ==> {
                        &&& i < n
                        &&& s@[i as int] == ':'
                        &&& first_colon_from(s@, 0) == i
                    },
                decreases n - i, (if found {
                    0int
                } else {
                    1int
                }),
            {
                let c = s.get_char(i);
                if c == ':' {
                    found = true;
                } else {
                    i = i + 1;
                }
            }
            if found {
                if i + 1 == n {
                    return Err(HexError::EmptyFieldName { token: s.to_owned() });
                }
                let type_part = s.substring_char(0, i);
                let field_part = s.substring_char(i + 1, n);
                proof {
                    assert(type_part@ =~= s@.take(i as int));
                    assert(field_part@ =~= s@.skip(i + 1));
                }
                match DataType::from_str(type_part) {
                    Ok(dt) => Ok(
                        TypeSpec::Scalar { data_type: dt, field_name: Some(field_part.to_owned()) },
                    ),
                    Err(e) => Err(e),
                }
            } else {
                proof {
                    assert(first_colon_from(s@, 0) == -1);
                }
                match DataType::from_str(s) {
                    Ok(dt) => Ok(TypeSpec::Scalar { data_type: dt, field_name: None }),
                    Err(e) => Err(e),
                }
            }
        }
    }

    /// The text shown before the colon in the label: the field name if
    /// one was given, else the type's own name.
    pub fn display_name(&self) -> (r: String)
        requires
            self matches TypeSpec::Scalar { .. },
        ensures
            self.meaning() matches TokenMeaning::TScalar { display, .. } && r@ == display,
    {
        match self {
            TypeSpec::Scalar { data_type, field_name: Some(f) } => f.clone(),
            TypeSpec::Scalar { data_type, field_name: None } => data_type.name().to_owned(),
            TypeSpec::Skip { .. } => String::new(),
        }
    }
}

/// Extending a digit run never shrinks its value.
proof fn lemma_dec_val_extend(s: Seq<char>, i: int, j: int)
    requires
        0 <= i <= j <= s.len(),
    ensures
        dec_val(s.take(i)) <= dec_val(s.take(j)),
    decreases j - i,
{
    if i < j {
        lemma_dec_val_extend(s, i, j - 1);
        assert(s.take(j).drop_last() =~= s.take(j - 1));
        assert(dec_val(s.take(j)) >= dec_val(s.take(j - 1)));
    }
}

/// The views of the token strings.
pub open spec fn token_views(ss: Seq<String>) -> Seq<Seq<char>> {
    ss.map_values(|s: String| s@)
}

/// Index of the first malformed token at or after `i`, or the length if
/// every one parses.
pub open spec fn first_bad_from(toks: Seq<Seq<char>>, i: int) -> int
    recommends
        0 <= i,
    decreases toks.len() - i when 0 <= i <= toks.len()
{
    if i >= toks.len() {
        toks.len() as int
    } else if token_meaning(toks[i]) is None {
        i
    } else {
        first_bad_from(toks, i + 1)
    }
}

/// The label of an annotation for a scalar that ran out of data.
pub open spec fn short_label(display: Seq<char>, needed: nat, available: nat) -> Seq<char> {
    display + ": expected "@ + dec_str(needed) + " bytes, only "@ + dec_str(available)
        + " available"@
}

/// The label of an annotation for a decoded scalar.
pub open spec fn value_label(
    display: Seq<char>,
    dt: DataType,
    data: Seq<u8>,
    cursor: nat,
    order: ByteOrder,
) -> Seq<char> {
    display + ": "@ + dt.decoded_text(data.skip(cursor as int), order)
}

/// The annotations the walk emits from token `i` on, with the cursor at
/// `cursor`.
pub open spec fn walk_anns(
    toks: Seq<Seq<char>>,
    order: ByteOrder,
    data: Seq<u8>,
    i: int,
    cursor: nat,
) -> Seq<AnnView>
    decreases toks.len() - i when 0 <= i <= toks.len()
{
    if i >= toks.len() {
        Seq::empty()
    } else {
        match token_meaning(toks[i]) {
            None => Seq::empty(),
            Some(TokenMeaning::TSkip { bytes }) => {
                if cursor + bytes <= data.len() {
                    walk_anns(toks, order, data, i + 1, (cursor + bytes) as nat)
                } else {
                    Seq::empty()
                }
            },
            Some(TokenMeaning::TScalar { dt, display }) => {
                let need = dt.spec_size() as nat;
                if cursor + need <= data.len() {
                    seq![
                        AnnView {
                            offset: cursor,
                            length: need,
                            label: value_label(display, dt, data, cursor, order),
                            kind: AnnotationKind::Normal,
                        },
                    ] + walk_anns(toks, order, data, i + 1, (cursor + need) as nat)
                } else {
                    let available: nat = if cursor <= data.len() {
                        (data.len() - cursor) as nat
                    } else {
                        0
                    };
                    seq![
                        AnnView {
                            offset: cursor,
                            length: available,
                            label: short_label(display, need, available),
                            kind: AnnotationKind::Error,
                        },
                    ]
                }
            },
        }
    }
}

/// How the walk from token `i` ends.
pub enum WalkOutcome {
    /// Every token was satisfied.
    Complete,
    /// A scalar ran out of data; the walk stops after its error
    /// annotation.
    ScalarShort { display: Seq<char>, offset: nat, needed: nat, available: nat },
    /// A skip ran out of data; the walk aborts with only an error.
    SkipShort { bytes: nat, offset: nat },
}

/// The outcome of the walk from token `i` on.
pub open spec fn walk_outcome(
    toks: Seq<Seq<char>>,
    order: ByteOrder,
    data: Seq<u8>,
    i: int,
    cursor: nat,
) -> WalkOutcome
    decreases toks.len() - i when 0 <= i <= toks.len()
{
    if i >= toks.len() {
        WalkOutcome::Complete
    } else {
        match token_meaning(toks[i]) {
            None => WalkOutcome::Complete,
            Some(TokenMeaning::TSkip { bytes }) => {
                if cursor + bytes <= data.len() {
                    walk_outcome(toks, order, data, i + 1, (cursor + bytes) as nat)
                } else {
                    WalkOutcome::SkipShort { bytes, offset: cursor }
                }
            },
            Some(TokenMeaning::TScalar { dt, display }) => {
                let need = dt.spec_size() as nat;
                if cursor + need <= data.len() {
                    walk_outcome(toks, order, data, i + 1, (cursor + need) as nat)
                } else {
                    let available: nat = if cursor <= data.len() {
                        (data.len() - cursor) as nat
                    } else {
                        0
                    };
                    WalkOutcome::ScalarShort { display, offset: cursor, needed: need, available }
                }
            },
        }
    }
}

/// Compiles a token list against a buffer into annotations.
///
/// A malformed token fails the call before any annotation is made.  A
/// scalar that runs out of data still returns the annotations produced
/// so far — its own error annotation included — together with the
/// error; a skip that runs out returns only the error.
pub fn build_annotations_from_types(
    type_specs: &Vec<String>,
    byte_order: ByteOrder,
    data: &Vec<u8>,
) -> (r: Result<(Vec<Annotation>, Option<HexError>), HexError>)
    ensures
        ({
            let toks = token_views(type_specs@);
            let fb = first_bad_from(toks, 0);
            &&& fb < toks.len() ==> (r matches Err(e) && token_error_matches(toks[fb], e))
            &&& fb == toks.len() ==> match walk_outcome(toks, byte_order, data@, 0, 0) {
                WalkOutcome::Complete => r matches Ok(p) && views_of(p.0@) == walk_anns(
                    toks,
                    byte_order,
                    data@,
                    0,
                    0,
                ) && p.1 is None,
                WalkOutcome::ScalarShort { display, offset, needed, available } => r matches Ok(p)
                    && views_of(p.0@) == walk_anns(toks, byte_order, data@, 0, 0) && (p.1 matches
                Some(e) && e matches HexError::ScalarPastEnd {
                    name,
                    offset: o,
                    needed: ne,
                    available: av,
                } && name@ == display && o == offset && ne == needed && av == available),
                WalkOutcome::SkipShort { bytes, offset } => r matches Err(e) && e matches
                    HexError::SkipPastEnd { bytes: b, offset: o, buffer_len: bl } && b == bytes
                    && o == offset && bl == data@.len(),
            }
        }),
{
    let ghost toks = token_views(type_specs@);
    let n = type_specs.len();
    let mut specs: Vec<TypeSpec> = Vec::new();
    let mut i: usize = 0;
    while i < n
        invariant
            i <= n,
            n == type_specs@.len(),
            toks == token_views(type_specs@),
            toks.len() == n,
            specs@.len() == i,
            forall|j: int|
                0 <= j < i ==> (token_meaning(toks[j]) matches Some(m) && #[trigger] specs@[j].meaning()
                    == m),
            first_bad_from(toks, 0) == first_bad_from(toks, i as int),
        decreases n - i,
    {
        let tok = &type_specs[i];
        proof {
            assert(toks[i as int] == tok@);
        }
        match TypeSpec::from_str(tok.as_str()) {
            Ok(ts) => {
                specs.push(ts);
            },
            Err(e) => {
                proof {
                    assert(token_meaning(toks[i as int]) is None);
                    assert(first_bad_from(toks, i as int) == i);
                }
                return Err(e);
            },
        }
        i = i + 1;
    }
    proof {
        assert(first_bad_from(toks, n as int) == n);
        assert(first_bad_from(toks, 0) == n);
    }
    let mut anns: Vec<Annotation> = Vec::new();
    let mut cursor: usize = 0;
    let mut k: usize = 0;
    proof {
        assert(views_of(anns@) =~= Seq::<AnnView>::empty());
        assert(walk_anns(toks, byte_order, data@, 0, 0) =~= views_of(anns@) + walk_anns(
            toks,
            byte_order,
            data@,
            0,
            0,
        ));
    }
    while k < n
        invariant
            k <= n,
            n == type_specs@.len(),
            toks == token_views(type_specs@),
            toks.len() == n,
            first_bad_from(toks, 0) == toks.len() as int,
            specs@.len() == n,
            cursor <= data@.len(),
            forall|j: int|
                0 <= j < n ==> (token_meaning(toks[j]) matches Some(m) && #[trigger] specs@[j].meaning()
                    == m),
            walk_anns(toks, byte_order, data@, 0, 0) == views_of(anns@) + walk_anns(
                toks,
                byte_order,
                data@,
                k as int,
                cursor as nat,
            ),
            walk_outcome(toks, byte_order, data@, 0, 0) == walk_outcome(
                toks,
                byte_order,
                data@,
                k as int,
                cursor as nat,
            ),
        decreases n - k,
    {
        let ghost pre_cursor = cursor as nat;
        match &specs[k] {
            TypeSpec::Skip { bits } => {
                let bytes64: u64 = *bits / 8;
                let remaining = data.len() - cursor;
                proof {
                    assert(specs@[k as int] == TypeSpec::Skip { bits: *bits });
                    assert(specs@[k as int].meaning() == TokenMeaning::TSkip {
                        bytes: (bits / 8) as nat,
                    });
                    assert(token_meaning(toks[k as int]) == Some(
                        TokenMeaning::TSkip { bytes: bytes64 as nat },
                    ));
                }
                if bytes64 > remaining as u64 {
                    proof {
                        assert(walk_outcome(toks, byte_order, data@, k as int, pre_cursor)
                            == WalkOutcome::SkipShort {
                            bytes: bytes64 as nat,
                            offset: pre_cursor,
                        });
                        assert(walk_outcome(toks, byte_order, data@, 0, 0)
                            == WalkOutcome::SkipShort {
                            bytes: bytes64 as nat,
                            offset: pre_cursor,
                        });
                        assert(first_bad_from(toks, 0) == toks.len());
                    }
                    return Err(
                        HexError::SkipPastEnd {
                            bytes: bytes64,
                            offset: cursor,
                            buffer_len: data.len(),
                        },
                    );
                }
                cursor = cursor + (bytes64 as usize);
                proof {
                    assert(walk_anns(toks, byte_order, data@, k as int, pre_cursor) == walk_anns(
                        toks,
                        byte_order,
                        data@,
                        k + 1int,
                        cursor as nat,
                    ));
                    assert(walk_outcome(toks, byte_order, data@, k as int, pre_cursor)
                        == walk_outcome(toks, byte_order, data@, k + 1int, cursor as nat));
                }
            },
            TypeSpec::Scalar { data_type, field_name } => {
                let need = data_type.size();
                let display: String = match field_name {
                    Some(f) => f.clone(),
                    None => data_type.name().to_owned(),
                };
                let ghost disp = display@;
                proof {
                    assert(specs@[k as int].meaning() == TokenMeaning::TScalar {
                        dt: *data_type,
                        display: disp,
                    });
                    assert(token_meaning(toks[k as int]) == Some(
                        TokenMeaning::TScalar { dt: *data_type, display: disp },
                    ));
                }
                let remaining = data.len() - cursor;
                if need > remaining {
                    let name_copy = display.clone();
                    let mut label = display;
                    label.append(": expected ");
                    append_u64_dec(&mut label, need as u64);
                    label.append(" bytes, only ");
                    append_u64_dec(&mut label, remaining as u64);
                    label.append(" available");
                    proof {
                        assert(label@ =~= short_label(disp, need as nat, remaining as nat));
                    }
                    let ghost pre_anns = anns@;
                    anns.push(Annotation::error(cursor, remaining, label));
                    proof {
                        assert(views_of(anns@) =~= views_of(pre_anns).push(
                            anns@.last()@,
                        ));
                        assert(anns@.last()@ == AnnView {
                            offset: pre_cursor,
                            length: remaining as nat,
                            label: short_label(disp, need as nat, remaining as nat),
                            kind: AnnotationKind::Error,
                        });
                        assert(walk_anns(toks, byte_order, data@, k as int, pre_cursor)
                            =~= seq![anns@.last()@]);
                        assert(views_of(anns@) =~= walk_anns(toks, byte_order, data@, 0, 0));
                        assert(walk_outcome(toks, byte_order, data@, k as int, pre_cursor)
                            == WalkOutcome::ScalarShort {
                            display: disp,
                            offset: pre_cursor,
                            needed: need as nat,
                            available: remaining as nat,
                        });
                        assert(walk_outcome(toks, byte_order, data@, 0, 0)
                            == WalkOutcome::ScalarShort {
                            display: disp,
                            offset: pre_cursor,
                            needed: need as nat,
                            available: remaining as nat,
                        });
                        assert(first_bad_from(toks, 0) == toks.len());
                    }
                    return Ok(
                        (
                            anns,
                            Some(
                                HexError::ScalarPastEnd {
                                    name: name_copy,
                                    offset: cursor,
                                    needed: need,
                                    available: remaining,
                                },
                            ),
                        ),
                    );
                }
                let mut window: Vec<u8> = Vec::new();
                let mut j: usize = 0;
                proof {
                    assert(window@ =~= data@.subrange(cursor as int, cursor + 0int));
                }
                while j < need
                    invariant
                        j <= need,
                        cursor + need <= data@.len(),
                        data@.len() <= usize::MAX,
                        window@ == data@.subrange(cursor as int, cursor + j),
                    decreases need - j,
                {
                    let b = data[cursor + j];
                    window.push(b);
                    j = j + 1;
                    proof {
                        assert(window@ =~= data@.subrange(cursor as int, cursor + j));
                    }
                }
                let value: String = match data_type.decode(window.as_slice(), byte_order) {
                    Ok(v) => v,
                    Err(_) => {
                        proof {
                            assert(false);
                        }
                        String::new()
                    },
                };
                let ghost disp = display@;
                let mut label = display;
                label.append(": ");
                label.append(value.as_str());
                proof {
                    let dt = *data_type;
                    assert(window@.take(dt.spec_size() as int) =~= data@.skip(
                        cursor as int,
                    ).take(dt.spec_size() as int));
                    assert(dt.decoded_text(window@, byte_order) == dt.decoded_text(
                        data@.skip(cursor as int),
                        byte_order,
                    ));
                    assert(label@ =~= value_label(disp, dt, data@, cursor as nat, byte_order));
                }
                let ghost pre_anns = anns@;
                anns.push(Annotation::new(cursor, need, label));
                proof {
                    assert(views_of(anns@) =~= views_of(pre_anns).push(anns@.last()@));
                }
                cursor = cursor + need;
                proof {
                    assert(anns@.last()@ == AnnView {
                        offset: pre_cursor,
                        length: need as nat,
                        label: value_label(disp, *data_type, data@, pre_cursor, byte_order),
                        kind: AnnotationKind::Normal,
                    });
                    assert(walk_anns(toks, byte_order, data@, k as int, pre_cursor) == seq![
                        anns@.last()@,
                    ] + walk_anns(toks, byte_order, data@, k + 1int, cursor as nat));
                    assert(walk_outcome(toks, byte_order, data@, k as int, pre_cursor)
                        == walk_outcome(toks, byte_order, data@, k + 1int, cursor as nat));
                }
            },
        }
        k = k + 1;
        proof {
            assert(walk_anns(toks, byte_order, data@, 0, 0) =~= views_of(anns@) + walk_anns(
                toks,
                byte_order,
                data@,
                k as int,
                cursor as nat,
            ));
        }
    }
    proof {
        assert(walk_anns(toks, byte_order, data@, n as int, cursor as nat)
            =~= Seq::<AnnView>::empty());
        assert(views_of(anns@) =~= walk_anns(toks, byte_order, data@, 0, 0));
    }
    Ok((anns, None))
}

} // verus!
