//! The RESP data model and the encoding half of the codec.
//!
//! A `RESPString` is one wire value; `RespView` is its mathematical shape,
//! with byte payloads as `Seq<u8>`. `encode_view` is the one canonical
//! encoding of a value, and `encode` produces exactly those bytes.

use vstd::prelude::*;

verus! {

use crate::num::{dec_digits, dec_int, push_i64_dec, push_usize_dec};

/// One RESP wire value. Text payloads are the raw wire bytes; the reserved
/// length `-1` of the wire format is modelled by the two null variants.
#[derive(Debug, PartialEq, Eq)]
pub enum RESPString {
    SimpleString(Vec<u8>),
    Error(Vec<u8>),
    Integer(i64),
    BulkString(Vec<u8>),
    NullBulkString,
    Array(Vec<RESPString>),
    NullArray,
}

/// The mathematical shape of a `RESPString`.
pub enum RespView {
    SimpleString(Seq<u8>),
    Error(Seq<u8>),
    Integer(int),
    BulkString(Seq<u8>),
    NullBulkString,
    Array(Seq<RespView>),
    NullArray,
}

impl RESPString {
    /// The deep view of a value: payloads become sequences, children become
    /// a sequence of views.
    pub open spec fn dview(self) -> RespView
        decreases self,
    {
        match self {
            RESPString::SimpleString(s) => RespView::SimpleString(s@),
            RESPString::Error(s) => RespView::Error(s@),
            RESPString::Integer(i) => RespView::Integer(i as int),
            RESPString::BulkString(s) => RespView::BulkString(s@),
            RESPString::NullBulkString => RespView::NullBulkString,
            RESPString::Array(a) => RespView::Array(vec_dview(a)),
            RESPString::NullArray => RespView::NullArray,
        }
    }
}

/// The element views of a vector of values.
pub open spec fn vec_dview(a: Vec<RESPString>) -> Seq<RespView>
    decreases a,
{
    Seq::new(
        a@.len(),
        |i: int|
            if 0 <= i < a.len() {
                a[i].dview()
            } else {
                RespView::NullArray
            },
    )
}

pub open spec fn seq_dview(s: Seq<RESPString>) -> Seq<RespView> {
    Seq::new(s.len(), |i: int| s[i].dview())
}

/// The two ways of viewing a vector's elements agree.
pub proof fn lemma_vec_dview(a: Vec<RESPString>)
    ensures
        vec_dview(a) == seq_dview(a@),
{
    assert(vec_dview(a) =~= seq_dview(a@));
}

/// A single-line payload: no carriage return, no line feed.
pub open spec fn line_ok(s: Seq<u8>) -> bool {
    forall|i: int| 0 <= i < s.len() ==> #[trigger] s[i] != 13 && s[i] != 10
}

impl RespView {
    /// The data-model invariant: single-line payloads carry no CR/LF, an
    /// integer fits 64 signed bits, and sizes fit the machine.
    pub open spec fn wf(self) -> bool
        decreases self,
    {
        match self {
            RespView::SimpleString(s) => line_ok(s),
            RespView::Error(s) => line_ok(s),
            RespView::Integer(i) => -0x8000_0000_0000_0000 <= i <= 0x7fff_ffff_ffff_ffff,
            RespView::BulkString(s) => s.len() <= usize::MAX,
            RespView::NullBulkString => true,
            RespView::Array(a) => a.len() <= usize::MAX && (forall|i: int|
                0 <= i < a.len() ==> (#[trigger] a[i]).wf()),
            RespView::NullArray => true,
        }
    }
}

/// A well-formed array has well-formed elements and a machine-sized length.
pub proof fn lemma_array_wf(a: Seq<RespView>)
    requires
        RespView::Array(a).wf(),
    ensures
        a.len() <= usize::MAX,
        forall|i: int| 0 <= i < a.len() ==> (#[trigger] a[i]).wf(),
{
    assert forall|i: int| 0 <= i < a.len() implies (#[trigger] a[i]).wf() by {
        assert(RespView::Array(a).wf());
    }
}

pub open spec fn crlf() -> Seq<u8> {
    seq![13u8, 10u8]
}

/// The canonical wire encoding of a value.
pub open spec fn encode_view(v: RespView) -> Seq<u8>
    decreases v, 0int,
{
    match v {
        RespView::SimpleString(s) => seq![43u8] + s + crlf(),
        RespView::Error(s) => seq![45u8] + s + crlf(),
        RespView::Integer(i) => seq![58u8] + dec_int(i) + crlf(),
        RespView::BulkString(s) => seq![36u8] + dec_digits(s.len()) + crlf() + s + crlf(),
        RespView::NullBulkString => seq![36u8, 45u8, 49u8, 13u8, 10u8],
        RespView::Array(a) => seq![42u8] + dec_digits(a.len()) + crlf() + encode_elems_from(a, 0),
        RespView::NullArray => seq![42u8, 45u8, 49u8, 13u8, 10u8],
    }
}

/// The concatenated encodings of the elements of `a` from index `i` on.
pub open spec fn encode_elems_from(a: Seq<RespView>, i: int) -> Seq<u8>
    decreases a, a.len() - i,
{
    if 0 <= i < a.len() {
        encode_view(a[i]) + encode_elems_from(a, i + 1)
    } else {
        Seq::<u8>::empty()
    }
}

/// Every encoding is at least the sigil plus a line ending long.
pub proof fn lemma_encode_view_len(v: RespView)
    ensures
        encode_view(v).len() >= 3,
{
    match v {
        RespView::SimpleString(s) => {},
        RespView::Error(s) => {},
        RespView::Integer(i) => {},
        RespView::BulkString(s) => {},
        RespView::NullBulkString => {},
        RespView::Array(a) => {},
        RespView::NullArray => {},
    }
}

/// Appends all of `src` to `out`.
pub fn push_all(out: &mut Vec<u8>, src: &Vec<u8>)
    ensures
        final(out)@ == old(out)@ + src@,
{
    let mut i: usize = 0;
    while i < src.len()
        invariant
            i <= src.len(),
            out@ == old(out)@ + src@.subrange(0, i as int),
        decreases src.len() - i,
    {
        out.push(src[i]);
        assert(out@ =~= old(out)@ + src@.subrange(0, i + 1));
        i = i + 1;
    }
    assert(out@ =~= old(out)@ + src@);
}

impl RESPString {
    /// Encodes the value into its canonical wire bytes.
    #[verifier::loop_isolation(false)]
    pub fn encode(&self) -> (r: Vec<u8>)
        ensures
            r@ == encode_view(self.dview()),
        decreases self,
    {
        let mut out: Vec<u8> = Vec::new();
        match self {
            RESPString::SimpleString(s) => {
                out.push(43);
                push_all(&mut out, s);
                out.push(13);
                out.push(10);
                assert(out@ =~= seq![43u8] + s@ + crlf());
            },
            RESPString::Error(s) => {
                out.push(45);
                push_all(&mut out, s);
                out.push(13);
                out.push(10);
                assert(out@ =~= seq![45u8] + s@ + crlf());
            },
            RESPString::Integer(i) => {
                out.push(58);
                push_i64_dec(&mut out, *i);
                out.push(13);
                out.push(10);
                assert(out@ =~= seq![58u8] + dec_int(*i as int) + crlf());
            },
            RESPString::BulkString(s) => {
                out.push(36);
                push_usize_dec(&mut out, s.len());
                out.push(13);
                out.push(10);
                push_all(&mut out, s);
                out.push(13);
                out.push(10);
                assert(out@ =~= seq![36u8] + dec_digits(s@.len()) + crlf() + s@ + crlf());
            },
            RESPString::NullBulkString => {
                out.push(36);
                out.push(45);
                out.push(49);
                out.push(13);
                out.push(10);
                assert(out@ =~= seq![36u8, 45u8, 49u8, 13u8, 10u8]);
            },
            RESPString::Array(a) => {
                let ghost ed = seq_dview(a@);
                proof {
                    lemma_vec_dview(*a);
                }
                out.push(42);
                push_usize_dec(&mut out, a.len());
                out.push(13);
                out.push(10);
                assert(out@ =~= seq![42u8] + dec_digits(a@.len()) + crlf());
                assert(ed.len() == a@.len());
                let mut i: usize = 0;
                while i < a.len()
                    invariant
                        i <= a.len(),
                        ed == seq_dview(a@),
                        ed.len() == a@.len(),
                        out@ + encode_elems_from(ed, i as int) == encode_view(
                            RespView::Array(ed),
                        ),
                    decreases a.len() - i,
                {
                    proof {
                        assert(decreases_to!(*self => (*self)->Array_0));
                        assert((*self)->Array_0 == *a);
                        assert(decreases_to!(*a => a[i as int]));
                        assert(decreases_to!(*self => a[i as int]));
                    }
                    let child = a[i].encode();
                    assert(child@ == encode_view(ed[i as int]));
                    let ghost before = out@;
                    push_all(&mut out, &child);
                    proof {
                        assert(encode_elems_from(ed, i as int) == encode_view(ed[i as int])
                            + encode_elems_from(ed, i + 1));
                        assert(out@ + encode_elems_from(ed, i + 1) =~= before
                            + encode_elems_from(ed, i as int));
                    }
                    i = i + 1;
                }
                assert(encode_elems_from(ed, a@.len() as int) =~= Seq::<u8>::empty());
                assert(out@ =~= out@ + encode_elems_from(ed, a@.len() as int));
                assert(self.dview() == RespView::Array(ed));
            },
            RESPString::NullArray => {
                out.push(42);
                out.push(45);
                out.push(49);
                out.push(13);
                out.push(10);
                assert(out@ =~= seq![42u8, 45u8, 49u8, 13u8, 10u8]);
            },
        }
        out
    }

    /// A deep copy whose view is the same as this value's.
    #[verifier::loop_isolation(false)]
    pub fn duplicate(&self) -> (r: RESPString)
        ensures
            r.dview() == self.dview(),
        decreases self,
    {
        match self {
            RESPString::SimpleString(s) => RESPString::SimpleString(copy_bytes(s)),
            RESPString::Error(s) => RESPString::Error(copy_bytes(s)),
            RESPString::Integer(i) => RESPString::Integer(*i),
            RESPString::BulkString(s) => RESPString::BulkString(copy_bytes(s)),
            RESPString::NullBulkString => RESPString::NullBulkString,
            RESPString::Array(a) => {
                let mut out: Vec<RESPString> = Vec::new();
                let mut i: usize = 0;
                while i < a.len()
                    invariant
                        i <= a.len(),
                        out@.len() == i,
                        forall|j: int| 0 <= j < i ==> #[trigger] out@[j].dview() == a@[j].dview(),
                    decreases a.len() - i,
                {
                    proof {
                        assert(decreases_to!(*self => (*self)->Array_0));
                        assert((*self)->Array_0 == *a);
                        assert(decreases_to!(*a => a[i as int]));
                        assert(decreases_to!(*self => a[i as int]));
                    }
                    let child = a[i].duplicate();
                    out.push(child);
                    i = i + 1;
                }
                proof {
                    lemma_vec_dview(out);
                    lemma_vec_dview(*a);
                    assert(seq_dview(out@) =~= seq_dview(a@));
                }
                RESPString::Array(out)
            },
            RESPString::NullArray => RESPString::NullArray,
        }
    }
}

/// A fresh copy of a byte vector.
pub fn copy_bytes(src: &Vec<u8>) -> (r: Vec<u8>)
    ensures
        r@ == src@,
{
    let mut out: Vec<u8> = Vec::new();
    push_all(&mut out, src);
    assert(out@ =~= src@);
    out
}

/// Byte-wise equality of two byte vectors.
pub fn bytes_eq(a: &Vec<u8>, b: &Vec<u8>) -> (r: bool)
    ensures
        r == (a@ == b@),
{
    if a.len() != b.len() {
        return false;
    }
    let mut i: usize = 0;
    while i < a.len()
        invariant
            i <= a.len(),
            a@.len() == b@.len(),
            forall|j: int| 0 <= j < i ==> a@[j] == b@[j],
        decreases a.len() - i,
    {
        if a[i] != b[i] {
            return false;
        }
        i = i + 1;
    }
    proof {
        assert(a@ =~= b@);
    }
    true
}

/// The command set: the case-insensitive name of the first array element
/// selects one of these; anything unrecognised is `Unknown`.
#[derive(Debug, Clone, Copy, PartialEq, Eq, Structural)]
pub enum Command {
    Ping,
    Echo,
    Get,
    SetCmd,
    Unknown,
}

/// Why a value cannot be dispatched: it is not a command-shaped array, or a
/// required argument is absent.
#[derive(Debug, Clone, Copy, PartialEq, Eq, Structural)]
pub enum CommandError {
    InvalidCommand,
    MissingArgument,
}

/// ASCII upper-case letters fold to lower case; all else is unchanged.
pub open spec fn ascii_lower(b: u8) -> u8 {
    if 65 <= b <= 90 {
        (b + 32) as u8
    } else {
        b
    }
}

pub open spec fn lower_bytes(s: Seq<u8>) -> Seq<u8> {
    Seq::new(s.len(), |i: int| ascii_lower(s[i]))
}

pub open spec fn ping_name() -> Seq<u8> {
    seq![112u8, 105u8, 110u8, 103u8]
}

pub open spec fn echo_name() -> Seq<u8> {
    seq![101u8, 99u8, 104u8, 111u8]
}

pub open spec fn get_name() -> Seq<u8> {
    seq![103u8, 101u8, 116u8]
}

pub open spec fn set_name() -> Seq<u8> {
    seq![115u8, 101u8, 116u8]
}

/// The command selected by a (case-insensitive) name.
pub open spec fn command_of(name: Seq<u8>) -> Command {
    let l = lower_bytes(name);
    if l == ping_name() {
        Command::Ping
    } else if l == echo_name() {
        Command::Echo
    } else if l == get_name() {
        Command::Get
    } else if l == set_name() {
        Command::SetCmd
    } else {
        Command::Unknown
    }
}

/// Folds ASCII upper-case letters to lower case.
pub fn to_lower(v: &Vec<u8>) -> (r: Vec<u8>)
    ensures
        r@ == lower_bytes(v@),
{
    let mut out: Vec<u8> = Vec::new();
    let mut i: usize = 0;
    while i < v.len()
        invariant
            i <= v.len(),
            out@ == lower_bytes(v@).take(i as int),
        decreases v.len() - i,
    {
        let b = v[i];
        let low: u8 = if 65 <= b && b <= 90 {
            b + 32
        } else {
            b
        };
        out.push(low);
        assert(out@ =~= lower_bytes(v@).take(i + 1));
        i = i + 1;
    }
    assert(out@ =~= lower_bytes(v@));
    out
}

impl Command {
    /// Classifies a command name, ignoring ASCII case.
    pub fn from_str(name: &Vec<u8>) -> (r: Command)
        ensures
            r == command_of(name@),
    {
        let lower = to_lower(name);
        if lower.len() == 4 && lower[0] == 112 && lower[1] == 105 && lower[2] == 110 && lower[3]
            == 103 {
            assert(lower@ =~= ping_name());
            Command::Ping
        } else if lower.len() == 4 && lower[0] == 101 && lower[1] == 99 && lower[2] == 104
            && lower[3] == 111 {
            assert(lower@ =~= echo_name());
            Command::Echo
        } else if lower.len() == 3 && lower[0] == 103 && lower[1] == 101 && lower[2] == 116 {
            assert(lower@ =~= get_name());
            Command::Get
        } else if lower.len() == 3 && lower[0] == 115 && lower[1] == 101 && lower[2] == 116 {
            assert(lower@ =~= set_name());
            Command::SetCmd
        } else {
            Command::Unknown
        }
    }
}

/// The command and arguments carried by a value, if it has the shape of a
/// command frame: an array whose first element is a bulk or simple string.
pub open spec fn command_frame(v: RespView) -> Option<(Command, Seq<RespView>)> {
    match v {
        RespView::Array(elems) => if elems.len() >= 1 {
            match elems[0] {
                RespView::BulkString(name) => Some((command_of(name), elems.skip(1))),
                RespView::SimpleString(name) => Some((command_of(name), elems.skip(1))),
                _ => None,
            }
        } else {
            None
        },
        _ => None,
    }
}

impl RESPString {
    /// Extracts the command and its arguments, exactly when this value has
    /// the shape of a command frame; an empty or differently-shaped value is
    /// rejected, never a fault.
    #[verifier::loop_isolation(false)]
    pub fn to_command(&self) -> (r: Result<(Command, Vec<RESPString>), CommandError>)
        ensures
            match r {
                Ok(p) => command_frame(self.dview()) == Some((p.0, seq_dview(p.1@))),
                Err(e) => command_frame(self.dview()) is None && e
                    == CommandError::InvalidCommand,
            },
    {
        match self {
            RESPString::Array(a) => {
                proof {
                    lemma_vec_dview(*a);
                }
                if a.len() == 0 {
                    return Err(CommandError::InvalidCommand);
                }
                let cmd = match &a[0] {
                    RESPString::BulkString(name) => Command::from_str(name),
                    RESPString::SimpleString(name) => Command::from_str(name),
                    _ => {
                        return Err(CommandError::InvalidCommand);
                    },
                };
                let mut args: Vec<RESPString> = Vec::new();
                let mut i: usize = 1;
                while i < a.len()
                    invariant
                        1 <= i <= a.len(),
                        args@.len() == i - 1,
                        forall|j: int| 0 <= j < i - 1 ==> #[trigger] args@[j].dview() == a@[j
                            + 1].dview(),
                    decreases a.len() - i,
                {
                    let child = a[i].duplicate();
                    args.push(child);
                    i = i + 1;
                }
                proof {
                    assert(seq_dview(args@) =~= vec_dview(*a).skip(1));
                }
                Ok((cmd, args))
            },
            _ => Err(CommandError::InvalidCommand),
        }
    }

    /// The null bulk string, the reply that stands for "no value".
    pub fn null_reply() -> (r: RESPString)
        ensures
            r.dview() == RespView::NullBulkString,
    {
        RESPString::NullBulkString
    }

    /// The `OK` status reply.
    pub fn ok_reply() -> (r: RESPString)
        ensures
            r.dview() == RespView::SimpleString(seq![79u8, 75u8]),
    {
        let mut s: Vec<u8> = Vec::new();
        s.push(79);
        s.push(75);
        assert(s@ =~= seq![79u8, 75u8]);
        RESPString::SimpleString(s)
    }
}

/// The text a value stands for, flattened: the payload of a string, the
/// decimal form of an integer, the concatenated texts of an array's
/// elements, and nothing for the null values.
pub open spec fn flat_text_view(v: RespView) -> Seq<u8>
    decreases v, 0int,
{
    match v {
        RespView::SimpleString(s) => s,
        RespView::Error(s) => s,
        RespView::Integer(i) => dec_int(i),
        RespView::BulkString(s) => s,
        RespView::NullBulkString => Seq::<u8>::empty(),
        RespView::Array(a) => flat_texts_from(a, 0),
        RespView::NullArray => Seq::<u8>::empty(),
    }
}

pub open spec fn flat_texts_from(a: Seq<RespView>, i: int) -> Seq<u8>
    decreases a, a.len() - i,
{
    if 0 <= i < a.len() {
        flat_text_view(a[i]) + flat_texts_from(a, i + 1)
    } else {
        Seq::<u8>::empty()
    }
}

impl RESPString {
    /// The flattened text bytes of this value.
    #[verifier::loop_isolation(false)]
    pub fn flat_text(&self) -> (r: Vec<u8>)
        ensures
            r@ == flat_text_view(self.dview()),
        decreases self,
    {
        match self {
            RESPString::SimpleString(s) => copy_bytes(s),
            RESPString::Error(s) => copy_bytes(s),
            RESPString::Integer(i) => {
                let mut out: Vec<u8> = Vec::new();
                push_i64_dec(&mut out, *i);
                assert(out@ =~= dec_int(*i as int));
                out
            },
            RESPString::BulkString(s) => copy_bytes(s),
            RESPString::NullBulkString => Vec::new(),
            RESPString::Array(a) => {
                let ghost ed = seq_dview(a@);
                proof {
                    lemma_vec_dview(*a);
                }
                let mut out: Vec<u8> = Vec::new();
                let mut i: usize = 0;
                while i < a.len()
                    invariant
                        i <= a.len(),
                        out@ + flat_texts_from(ed, i as int) == flat_text_view(self.dview()),
                    decreases a.len() - i,
                {
                    proof {
                        assert(decreases_to!(*self => (*self)->Array_0));
                        assert((*self)->Array_0 == *a);
                        assert(decreases_to!(*a => a[i as int]));
                        assert(decreases_to!(*self => a[i as int]));
                    }
                    let child = a[i].flat_text();
                    let ghost before = out@;
                    push_all(&mut out, &child);
                    proof {
                        assert(out@ + flat_texts_from(ed, i + 1) =~= before + flat_texts_from(
                            ed,
                            i as int,
                        ));
                    }
                    i = i + 1;
                }
                assert(out@ =~= out@ + flat_texts_from(ed, a@.len() as int));
                out
            },
            RESPString::NullArray => Vec::new(),
        }
    }

    /// The flattened text as a `String`, folding invalid UTF-8 the way
    /// `from_utf8_lossy` does.
    pub fn to_string(&self) -> (r: String)
        ensures
            r@ == lossy_utf8_of(flat_text_view(self.dview())),
    {
        let t = self.flat_text();
        bytes_to_string_lossy(&t)
    }
}

/// The characters `String::from_utf8_lossy` makes of a byte sequence.
pub uninterp spec fn lossy_utf8_of(b: Seq<u8>) -> Seq<char>;

/// Relies on String::from_utf8_lossy: the characters produced depend on the
/// input bytes alone.
#[verifier::external_body]
fn bytes_to_string_lossy(b: &Vec<u8>) -> (r: String)
    ensures
        r@ == lossy_utf8_of(b@),
{
    String::from_utf8_lossy(b).into_owned()
}

} // verus!
