use vstd::prelude::*;

verus! {

/// The failure modes of the pipeline, in mathematical form.
pub enum ErrorV {
    FileNotFoundV(Seq<u8>),
    IoErrorV(Seq<u8>),
    MalformedAmountV(Seq<u8>),
    MissingColumnV(Seq<u8>),
    DecodeErrorV(Seq<u8>),
}

/// The failure modes of the pipeline. Text payloads are UTF-8 bytes.
#[derive(Debug)]
pub enum Error {
    /// The input path does not refer to an existing file; holds the path.
    FileNotFound(Vec<u8>),
    /// Reading or writing failed; holds the underlying message.
    IoError(Vec<u8>),
    /// An `Amount` cell could not be parsed; holds the cell.
    MalformedAmount(Vec<u8>),
    /// A required header is absent; holds the column name.
    MissingColumn(Vec<u8>),
    /// Any other row decode failure; holds a description.
    DecodeError(Vec<u8>),
}

impl View for Error {
    type V = ErrorV;

    open spec fn view(&self) -> ErrorV {
        match self {
            Error::FileNotFound(p) => ErrorV::FileNotFoundV(p@),
            Error::IoError(m) => ErrorV::IoErrorV(m@),
            Error::MalformedAmount(c) => ErrorV::MalformedAmountV(c@),
            Error::MissingColumn(n) => ErrorV::MissingColumnV(n@),
            Error::DecodeError(m) => ErrorV::DecodeErrorV(m@),
        }
    }
}

/// The diagnostic line for each failure. The file-not-found and
/// missing-column messages carry their payload between the quotes.
pub open spec fn message_of(e: ErrorV) -> Seq<u8> {
    match e {
        ErrorV::FileNotFoundV(p) => vstd::utf8::encode_utf8("the file '"@) + p
            + vstd::utf8::encode_utf8("' does not exist"@),
        ErrorV::IoErrorV(m) => m,
        ErrorV::MalformedAmountV(c) => vstd::utf8::encode_utf8("malformed amount '"@) + c
            + vstd::utf8::encode_utf8("'"@),
        ErrorV::MissingColumnV(n) => vstd::utf8::encode_utf8("missing column '"@) + n
            + vstd::utf8::encode_utf8("'"@),
        ErrorV::DecodeErrorV(m) => m,
    }
}

impl Error {
    /// Renders the diagnostic line for this failure.
    pub fn message(&self) -> (m: Vec<u8>)
        ensures
            m@ == message_of(self@),
    {
        let mut m: Vec<u8> = Vec::new();
        match self {
            Error::FileNotFound(p) => {
                let mut a = vstd::string::StrSliceExecFns::as_bytes_vec("the file '");
                m.append(&mut a);
                m.extend_from_slice(p.as_slice());
                let mut b = vstd::string::StrSliceExecFns::as_bytes_vec("' does not exist");
                m.append(&mut b);
                proof {
                    assert(m@ =~= message_of(self@));
                }
            },
            Error::IoError(t) => {
                m.extend_from_slice(t.as_slice());
                proof {
                    assert(m@ =~= message_of(self@));
                }
            },
            Error::MalformedAmount(c) => {
                let mut a = vstd::string::StrSliceExecFns::as_bytes_vec("malformed amount '");
                m.append(&mut a);
                m.extend_from_slice(c.as_slice());
                let mut b = vstd::string::StrSliceExecFns::as_bytes_vec("'");
                m.append(&mut b);
                proof {
                    assert(m@ =~= message_of(self@));
                }
            },
            Error::MissingColumn(n) => {
                let mut a = vstd::string::StrSliceExecFns::as_bytes_vec("missing column '");
                m.append(&mut a);
                m.extend_from_slice(n.as_slice());
                let mut b = vstd::string::StrSliceExecFns::as_bytes_vec("'");
                m.append(&mut b);
                proof {
                    assert(m@ =~= message_of(self@));
                }
            },
            Error::DecodeError(t) => {
                m.extend_from_slice(t.as_slice());
                proof {
                    assert(m@ =~= message_of(self@));
                }
            },
        }
        m
    }
}

/// The file-not-found message carries the missing path, verbatim, starting
/// right after the opening quote.
pub proof fn lemma_file_not_found_message(p: Seq<u8>)
    ensures
        ({
            let m = message_of(ErrorV::FileNotFoundV(p));
            m.subrange(10, 10 + p.len() as int) == p
        }),
{
    let prefix = "the file '"@;
    reveal_strlit("the file '");
    assert(vstd::utf8::is_ascii_chars(prefix));
    vstd::utf8::is_ascii_chars_encode_utf8(prefix);
    let pb = vstd::utf8::encode_utf8(prefix);
    assert(pb.len() == 10);
    let m = message_of(ErrorV::FileNotFoundV(p));
    assert(m.subrange(10, 10 + p.len() as int) =~= p);
}

} // verus!
