use vstd::prelude::*;

use crate::COMMA;
use crate::CR;
use crate::LF;
use crate::QUOTE;

verus! {

/// The scanner's position relative to quoting.
pub enum Mode {
    /// At the opening of a field.
    FieldStart,
    /// Inside an unquoted field.
    Unquoted,
    /// Inside a double-quoted field.
    Quoted,
    /// Just after a `"` inside a quoted field: either the closing quote or
    /// the first half of an escaped `""`.
    QuoteSeen,
}

/// The scanner's whole state: the finished records, the open record, the
/// open field, and the quoting mode.
pub struct Scan {
    pub rows: Seq<Seq<Seq<u8>>>,
    pub row: Seq<Seq<u8>>,
    pub field: Seq<u8>,
    pub mode: Mode,
}

/// The state before any input.
pub open spec fn scan_init() -> Scan {
    Scan { rows: Seq::empty(), row: Seq::empty(), field: Seq::empty(), mode: Mode::FieldStart }
}

/// One byte of the RFC 4180 dialect: `,` separates fields, `\n` ends a
/// record, a field opening with `"` runs to its closing quote with `""` as an
/// escaped quote and separators inside taken as field data, and `\r` outside
/// quotes is dropped, so CRLF line ends are accepted. Blank lines yield no
/// record; a stray quote in an unquoted field is taken literally.
pub open spec fn scan_step(st: Scan, b: u8) -> Scan {
    match st.mode {
        Mode::FieldStart => {
            if b == QUOTE {
                Scan { mode: Mode::Quoted, ..st }
            } else if b == COMMA {
                Scan { row: st.row.push(st.field), field: Seq::empty(), ..st }
            } else if b == LF {
                if st.row.len() == 0 {
                    st
                } else {
                    Scan {
                        rows: st.rows.push(st.row.push(st.field)),
                        row: Seq::empty(),
                        field: Seq::empty(),
                        ..st
                    }
                }
            } else if b == CR {
                st
            } else {
                Scan { field: st.field.push(b), mode: Mode::Unquoted, ..st }
            }
        },
        Mode::Unquoted => {
            if b == COMMA {
                Scan { row: st.row.push(st.field), field: Seq::empty(), mode: Mode::FieldStart, ..st }
            } else if b == LF {
                Scan {
                    rows: st.rows.push(st.row.push(st.field)),
                    row: Seq::empty(),
                    field: Seq::empty(),
                    mode: Mode::FieldStart,
                    ..st
                }
            } else if b == CR {
                st
            } else {
                Scan { field: st.field.push(b), ..st }
            }
        },
        Mode::Quoted => {
            if b == QUOTE {
                Scan { mode: Mode::QuoteSeen, ..st }
            } else {
                Scan { field: st.field.push(b), ..st }
            }
        },
        Mode::QuoteSeen => {
            if b == QUOTE {
                Scan { field: st.field.push(QUOTE), mode: Mode::Quoted, ..st }
            } else if b == COMMA {
                Scan { row: st.row.push(st.field), field: Seq::empty(), mode: Mode::FieldStart, ..st }
            } else if b == LF {
                Scan {
                    rows: st.rows.push(st.row.push(st.field)),
                    row: Seq::empty(),
                    field: Seq::empty(),
                    mode: Mode::FieldStart,
                    ..st
                }
            } else if b == CR {
                st
            } else {
                Scan { field: st.field.push(b), mode: Mode::Unquoted, ..st }
            }
        },
    }
}

/// The state after the first `i` bytes of `s`.
pub open spec fn scan_prefix(s: Seq<u8>, i: int) -> Scan
    decreases i,
{
    if i <= 0 {
        scan_init()
    } else {
        scan_step(scan_prefix(s, i - 1), s[i - 1])
    }
}

/// End of input: an open field or record is flushed; a clean end after a
/// record terminator yields nothing more.
pub open spec fn scan_finish(st: Scan) -> Seq<Seq<Seq<u8>>> {
    match st.mode {
        Mode::FieldStart => {
            if st.row.len() == 0 {
                st.rows
            } else {
                st.rows.push(st.row.push(st.field))
            }
        },
        _ => st.rows.push(st.row.push(st.field)),
    }
}

/// The records of a CSV text.
pub open spec fn records(s: Seq<u8>) -> Seq<Seq<Seq<u8>>> {
    scan_finish(scan_prefix(s, s.len() as int))
}

/// Splits a CSV text into its records, each a sequence of fields.
#[verifier::loop_isolation(false)]
#[verifier::rlimit(60)]
pub fn scan_records(input: &[u8]) -> (rows: Vec<Vec<Vec<u8>>>)
    ensures
        rows.deep_view() == records(input@),
{
    let mut rows: Vec<Vec<Vec<u8>>> = Vec::new();
    let mut row: Vec<Vec<u8>> = Vec::new();
    let mut field: Vec<u8> = Vec::new();
    let mut mode: Mode = Mode::FieldStart;
    let mut i: usize = 0;
    proof {
        assert(rows.deep_view() =~~= Seq::<Seq<Seq<u8>>>::empty());
        assert(row.deep_view() =~~= Seq::<Seq<u8>>::empty());
    }
    while i < input.len()
        invariant
            0 <= i <= input.len(),
            scan_prefix(input@, i as int) == (Scan {
                rows: rows.deep_view(),
                row: row.deep_view(),
                field: field@,
                mode: mode,
            }),
        decreases input.len() - i,
    {
        let ghost st0 = Scan {
            rows: rows.deep_view(),
            row: row.deep_view(),
            field: field@,
            mode: mode,
        };
        let b = input[i];
        let quote_b = b == QUOTE;
        let comma_b = b == COMMA;
        let lf_b = b == LF;
        let cr_b = b == CR;
        match mode {
            Mode::FieldStart => {
                if quote_b {
                    mode = Mode::Quoted;
                } else if comma_b {
                    let ghost row0 = row.deep_view();
                    row.push(field);
                    field = Vec::new();
                    proof {
                        assert(row.deep_view() =~~= row0.push(st0.field));
                    }
                } else if lf_b {
                    if row.len() > 0 {
                        let ghost row0 = row.deep_view();
                        row.push(field);
                        field = Vec::new();
                        let ghost rows0 = rows.deep_view();
                        rows.push(row);
                        row = Vec::new();
                        proof {
                            assert(rows@.last().deep_view() =~~= row0.push(st0.field));
                            assert(rows.deep_view() =~~= rows0.push(row0.push(st0.field)));
                            assert(row.deep_view() =~~= Seq::<Seq<u8>>::empty());
                        }
                    }
                } else if cr_b {
                } else {
                    field.push(b);
                    mode = Mode::Unquoted;
                }
            },
            Mode::Unquoted => {
                if comma_b {
                    let ghost row0 = row.deep_view();
                    row.push(field);
                    field = Vec::new();
                    mode = Mode::FieldStart;
                    proof {
                        assert(row.deep_view() =~~= row0.push(st0.field));
                    }
                } else if lf_b {
                    let ghost row0 = row.deep_view();
                    row.push(field);
                    field = Vec::new();
                    let ghost rows0 = rows.deep_view();
                    rows.push(row);
                    row = Vec::new();
                    mode = Mode::FieldStart;
                    proof {
                        assert(rows@.last().deep_view() =~~= row0.push(st0.field));
                        assert(rows.deep_view() =~~= rows0.push(row0.push(st0.field)));
                        assert(row.deep_view() =~~= Seq::<Seq<u8>>::empty());
                    }
                } else if cr_b {
                } else {
                    field.push(b);
                }
            },
            Mode::Quoted => {
                if quote_b {
                    mode = Mode::QuoteSeen;
                } else {
                    field.push(b);
                }
            },
            Mode::QuoteSeen => {
                if quote_b {
                    field.push(QUOTE);
                    mode = Mode::Quoted;
                } else if comma_b {
                    let ghost row0 = row.deep_view();
                    row.push(field);
                    field = Vec::new();
                    mode = Mode::FieldStart;
                    proof {
                        assert(row.deep_view() =~~= row0.push(st0.field));
                    }
                } else if lf_b {
                    let ghost row0 = row.deep_view();
                    row.push(field);
                    field = Vec::new();
                    let ghost rows0 = rows.deep_view();
                    rows.push(row);
                    row = Vec::new();
                    mode = Mode::FieldStart;
                    proof {
                        assert(rows@.last().deep_view() =~~= row0.push(st0.field));
                        assert(rows.deep_view() =~~= rows0.push(row0.push(st0.field)));
                        assert(row.deep_view() =~~= Seq::<Seq<u8>>::empty());
                    }
                } else if cr_b {
                } else {
                    field.push(b);
                    mode = Mode::Unquoted;
                }
            },
        }
        proof {
            assert(scan_prefix(input@, i + 1) == scan_step(st0, input@[i as int]));
            assert(Scan {
                rows: rows.deep_view(),
                row: row.deep_view(),
                field: field@,
                mode: mode,
            } == scan_step(st0, input@[i as int]));
        }
        i += 1;
    }
    let ghost stf = Scan { rows: rows.deep_view(), row: row.deep_view(), field: field@, mode: mode };
    let flush = match mode {
        Mode::FieldStart => row.len() > 0,
        _ => true,
    };
    if flush {
        let ghost row0 = row.deep_view();
        let ghost rows0 = rows.deep_view();
        row.push(field);
        rows.push(row);
        proof {
            assert(rows@.last().deep_view() =~~= row0.push(stf.field));
            assert(rows.deep_view() =~~= rows0.push(row0.push(stf.field)));
        }
    }
    rows
}

} // verus!
