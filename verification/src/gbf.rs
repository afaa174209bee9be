//! The goto binary format: what the writer emits and how the reader
//! understands bytes, stated as mathematical functions.
use crate::irep::{leaf, IrepV};
use crate::names::{entry_insert, names_sorted};
use vstd::prelude::*;
use vstd::utf8::{decode_utf8, encode_utf8, valid_utf8};

verus! {

/// Tag byte before a positional child.
pub const SUB_TAG: u8 = 0x53;

/// Tag byte before a named child.
pub const NAMED_TAG: u8 = 0x4e;

/// Tag byte before a comment.
pub const COMMENT_TAG: u8 = 0x43;

/// The version number written after the header.
pub const GBF_VERSION: u32 = 1;

/// The three bytes that open every goto binary: `GBF`.
pub open spec fn gbf_header() -> Seq<u8> {
    seq![0x47u8, 0x42u8, 0x46u8]
}

/// A 32-bit word, most significant byte first.
pub open spec fn be32(v: u32) -> Seq<u8> {
    seq![(v >> 24u32) as u8, (v >> 16u32) as u8, (v >> 8u32) as u8, v as u8]
}

/// The word whose bytes, most significant first, are `b0 b1 b2 b3`.
pub open spec fn be32_value(b0: u8, b1: u8, b2: u8, b3: u8) -> u32 {
    ((b0 as u32) << 24u32) | ((b1 as u32) << 16u32) | ((b2 as u32) << 8u32) | (b3 as u32)
}

/// A string as stored in the file: its UTF-8 bytes and a terminating zero.
pub open spec fn ser_string(s: Seq<char>) -> Seq<u8> {
    encode_utf8(s).push(0u8)
}

/// The tables of a writer: the strings and the nodes written so far; the
/// position of an entry is the number by which the file refers to it.
pub struct WriterState {
    pub strings: Seq<Seq<char>>,
    pub ireps: Seq<IrepV>,
}

pub open spec fn empty_writer_state() -> WriterState {
    WriterState { strings: Seq::empty(), ireps: Seq::empty() }
}

/// A reference to string `s`: its number if it was written before, else a new
/// number followed by the string itself.
pub open spec fn ser_string_ref(w: WriterState, s: Seq<char>) -> (WriterState, Seq<u8>) {
    if w.strings.contains(s) {
        (w, be32(w.strings.index_of(s) as u32))
    } else {
        (
            WriterState { strings: w.strings.push(s), ireps: w.ireps },
            be32(w.strings.len() as u32) + ser_string(s),
        )
    }
}

/// A reference to node `x`: its number if an equal node was written before,
/// else a new number followed by the node's body.
#[verifier::opaque]
pub open spec fn ser_ref(w: WriterState, x: IrepV) -> (WriterState, Seq<u8>)
    decreases x, 1int,
{
    if w.ireps.contains(x) {
        (w, be32(w.ireps.index_of(x) as u32))
    } else {
        let w1 = WriterState { strings: w.strings, ireps: w.ireps.push(x) };
        let (w2, body) = ser_irep(w1, x);
        (w2, be32(w.ireps.len() as u32) + body)
    }
}

/// The body of node `x`: a reference to its identifier, then each child, named
/// child and comment behind its tag, then a zero byte.
pub open spec fn ser_irep(w: WriterState, x: IrepV) -> (WriterState, Seq<u8>)
    decreases x, 0int,
{
    let (w1, b1) = ser_string_ref(w, x.id);
    let (w2, b2) = ser_subs(w1, x.subt);
    let (w3, b3) = ser_entries(w2, x.named_subt, NAMED_TAG);
    let (w4, b4) = ser_entries(w3, x.comments, COMMENT_TAG);
    (w4, b1 + b2 + b3 + b4.push(0u8))
}

/// Positional children, each behind the tag `S`.
pub open spec fn ser_subs(w: WriterState, s: Seq<IrepV>) -> (WriterState, Seq<u8>)
    decreases s, 0int,
{
    if s.len() == 0 {
        (w, Seq::empty())
    } else {
        let (w1, b1) = ser_subs(w, s.drop_last());
        let (w2, b2) = ser_ref(w1, s.last());
        (w2, b1 + seq![SUB_TAG] + b2)
    }
}

/// Named entries, each behind `tag`: a reference to the name, then to the value.
pub open spec fn ser_entries(w: WriterState, m: Seq<(Seq<char>, IrepV)>, tag: u8) -> (WriterState, Seq<u8>)
    decreases m, 0int,
{
    if m.len() == 0 {
        (w, Seq::empty())
    } else {
        let (w1, b1) = ser_entries(w, m.drop_last(), tag);
        let (w2, b2) = ser_string_ref(w1, m.last().0);
        let (w3, b3) = ser_ref(w2, m.last().1);
        (w3, b1 + seq![tag] + b2 + b3)
    }
}

/// A list of node references, one after the other.
pub open spec fn ser_refs(w: WriterState, s: Seq<IrepV>) -> (WriterState, Seq<u8>)
    decreases s.len(),
{
    if s.len() == 0 {
        (w, Seq::empty())
    } else {
        let (w1, b1) = ser_refs(w, s.drop_last());
        let (w2, b2) = ser_ref(w1, s.last());
        (w2, b1 + b2)
    }
}

/// A list of functions: each is its name as a plain string, then a reference
/// to its body.
pub open spec fn ser_functions(w: WriterState, f: Seq<(Seq<char>, IrepV)>) -> (WriterState, Seq<u8>)
    decreases f.len(),
{
    if f.len() == 0 {
        (w, Seq::empty())
    } else {
        let (w1, b1) = ser_functions(w, f.drop_last());
        let (w2, b2) = ser_ref(w1, f.last().1);
        (w2, b1 + ser_string(f.last().0) + b2)
    }
}

/// The writer's tables after writing the symbols and then the functions.
pub open spec fn goto_writer_state(symbols: Seq<IrepV>, functions: Seq<(Seq<char>, IrepV)>) -> WriterState {
    ser_functions(ser_refs(empty_writer_state(), symbols).0, functions).0
}

/// The whole file: header, version, the symbol count and symbols, the function
/// count and functions.
pub open spec fn serialize_goto(symbols: Seq<IrepV>, functions: Seq<(Seq<char>, IrepV)>) -> Seq<u8> {
    let (w1, b1) = ser_refs(empty_writer_state(), symbols);
    let (w2, b2) = ser_functions(w1, functions);
    gbf_header() + be32(GBF_VERSION) + be32(symbols.len() as u32) + b1 + be32(functions.len() as u32) + b2
}

/// Why a sequence of bytes is not a goto binary.
#[derive(Clone, Copy, Debug, PartialEq, Eq, Structural)]
pub enum ReadError {
    /// The file does not start with `GBF`.
    BadHeader,
    /// The version word is not 1.
    BadVersion,
    /// The bytes end before the structure does.
    UnexpectedEnd,
    /// A node's field starts with a byte that is no tag.
    BadTag,
    /// A string's bytes are not UTF-8.
    BadString,
}

/// The tables of a reader: what each number read so far stands for.
pub struct ReaderState {
    pub strings: Map<u32, Seq<char>>,
    pub ireps: Map<u32, IrepV>,
}

pub open spec fn empty_reader_state() -> ReaderState {
    ReaderState { strings: Map::empty(), ireps: Map::empty() }
}

pub open spec fn parse_u32(s: Seq<u8>) -> Result<(u32, Seq<u8>), ReadError> {
    if s.len() < 4 {
        Err(ReadError::UnexpectedEnd)
    } else {
        Ok((be32_value(s[0], s[1], s[2], s[3]), s.skip(4)))
    }
}

/// The position of the first zero byte of `s`, or -1 when there is none.
pub open spec fn nul_position(s: Seq<u8>) -> int
    decreases s.len(),
{
    if s.len() == 0 {
        -1
    } else if s[0] == 0 {
        0
    } else {
        let r = nul_position(s.drop_first());
        if r < 0 {
            -1
        } else {
            r + 1
        }
    }
}

pub proof fn lemma_nul_position(s: Seq<u8>)
    ensures
        -1 <= nul_position(s) < s.len(),
        nul_position(s) >= 0 ==> s[nul_position(s)] == 0,
        forall|j: int| 0 <= j < s.len() && (nul_position(s) < 0 || j < nul_position(s)) ==> s[j] != 0,
    decreases s.len(),
{
    if s.len() > 0 && s[0] != 0 {
        lemma_nul_position(s.drop_first());
        assert forall|j: int| 0 <= j < s.len() && (nul_position(s) < 0 || j < nul_position(s)) implies s[j] != 0 by {
            if j > 0 {
                assert(s[j] == s.drop_first()[j - 1]);
            }
        }
    }
}

/// A zero-terminated UTF-8 string.
pub open spec fn parse_cstring(s: Seq<u8>) -> Result<(Seq<char>, Seq<u8>), ReadError> {
    let p = nul_position(s);
    if p < 0 {
        Err(ReadError::UnexpectedEnd)
    } else if !valid_utf8(s.take(p)) {
        Err(ReadError::BadString)
    } else {
        Ok((decode_utf8(s.take(p)), s.skip(p + 1)))
    }
}

/// A string reference: a number, followed by the string itself when the
/// number is new.
pub open spec fn parse_string_ref(r: ReaderState, s: Seq<u8>) -> Result<(ReaderState, Seq<char>, Seq<u8>), ReadError> {
    match parse_u32(s) {
        Err(e) => Err(e),
        Ok((id, s1)) => if r.strings.contains_key(id) {
            Ok((r, r.strings[id], s1))
        } else {
            match parse_cstring(s1) {
                Err(e) => Err(e),
                Ok((t, s2)) => Ok((ReaderState { strings: r.strings.insert(id, t), ireps: r.ireps }, t, s2)),
            }
        },
    }
}

/// `acc` with the entry `(k, x)` set (see [`entry_insert`]) among its named children (for
/// `NAMED_TAG`) or among its comments.
pub open spec fn add_entry(acc: IrepV, tag: u8, k: Seq<char>, x: IrepV) -> IrepV {
    if tag == NAMED_TAG {
        IrepV { named_subt: entry_insert(acc.named_subt, k, x), ..acc }
    } else {
        IrepV { comments: entry_insert(acc.comments, k, x), ..acc }
    }
}

/// A node reference: a number, followed by the node's body when the number
/// is new; the node is recorded under its number once its body is read.
#[verifier::opaque]
pub open spec fn parse_ref(r: ReaderState, s: Seq<u8>) -> Result<(ReaderState, IrepV, Seq<u8>), ReadError>
    decreases s.len(),
{
    match parse_u32(s) {
        Err(e) => Err(e),
        Ok((id, s1)) => if r.ireps.contains_key(id) {
            Ok((r, r.ireps[id], s1))
        } else {
            match parse_string_ref(r, s1) {
                Err(e) => Err(e),
                Ok((r1, name, s2)) => if s2.len() < s.len() {
                    match parse_fields(r1, s2, leaf(name)) {
                        Err(e) => Err(e),
                        Ok((r2, x, s3)) => Ok((ReaderState { strings: r2.strings, ireps: r2.ireps.insert(id, x) }, x, s3)),
                    }
                } else {
                    Err(ReadError::UnexpectedEnd)
                },
            }
        },
    }
}

/// The tagged fields of a node up to its terminating zero, added to `acc`.
pub open spec fn parse_fields(r: ReaderState, s: Seq<u8>, acc: IrepV) -> Result<(ReaderState, IrepV, Seq<u8>), ReadError>
    decreases s.len(),
{
    if s.len() == 0 {
        Err(ReadError::UnexpectedEnd)
    } else if s[0] == 0 {
        Ok((r, acc, s.skip(1)))
    } else if s[0] == SUB_TAG {
        match parse_ref(r, s.skip(1)) {
            Err(e) => Err(e),
            Ok((r1, x, s1)) => if s1.len() < s.len() {
                parse_fields(r1, s1, IrepV { subt: acc.subt.push(x), ..acc })
            } else {
                Err(ReadError::UnexpectedEnd)
            },
        }
    } else if s[0] == NAMED_TAG || s[0] == COMMENT_TAG {
        match parse_string_ref(r, s.skip(1)) {
            Err(e) => Err(e),
            Ok((r1, k, s1)) => if s1.len() < s.len() {
                match parse_ref(r1, s1) {
                    Err(e) => Err(e),
                    Ok((r2, x, s2)) => if s2.len() < s.len() {
                        parse_fields(r2, s2, add_entry(acc, s[0], k, x))
                    } else {
                        Err(ReadError::UnexpectedEnd)
                    },
                }
            } else {
                Err(ReadError::UnexpectedEnd)
            },
        }
    } else {
        Err(ReadError::BadTag)
    }
}

/// `n` node references, one after the other.
pub open spec fn parse_refs(r: ReaderState, s: Seq<u8>, n: nat) -> Result<(ReaderState, Seq<IrepV>, Seq<u8>), ReadError>
    decreases n,
{
    if n == 0 {
        Ok((r, Seq::empty(), s))
    } else {
        match parse_refs(r, s, (n - 1) as nat) {
            Err(e) => Err(e),
            Ok((r1, xs, s1)) => match parse_ref(r1, s1) {
                Err(e) => Err(e),
                Ok((r2, x, s2)) => Ok((r2, xs.push(x), s2)),
            },
        }
    }
}

/// `n` functions, each a plain string and a node reference.
pub open spec fn parse_functions(r: ReaderState, s: Seq<u8>, n: nat) -> Result<(ReaderState, Seq<(Seq<char>, IrepV)>, Seq<u8>), ReadError>
    decreases n,
{
    if n == 0 {
        Ok((r, Seq::empty(), s))
    } else {
        match parse_functions(r, s, (n - 1) as nat) {
            Err(e) => Err(e),
            Ok((r1, fs, s1)) => match parse_cstring(s1) {
                Err(e) => Err(e),
                Ok((name, s2)) => match parse_ref(r1, s2) {
                    Err(e) => Err(e),
                    Ok((r2, x, s3)) => Ok((r2, fs.push((name, x)), s3)),
                },
            },
        }
    }
}

/// Once reading a list of references fails, reading a longer list fails the same way.
pub proof fn lemma_parse_refs_err(r: ReaderState, s: Seq<u8>, k: nat, m: nat)
    requires
        k <= m,
        parse_refs(r, s, k) is Err,
    ensures
        parse_refs(r, s, m) == parse_refs(r, s, k),
    decreases m - k,
{
    if k < m {
        lemma_parse_refs_err(r, s, k, (m - 1) as nat);
    }
}

/// Once reading a list of functions fails, reading a longer list fails the same way.
pub proof fn lemma_parse_functions_err(r: ReaderState, s: Seq<u8>, k: nat, m: nat)
    requires
        k <= m,
        parse_functions(r, s, k) is Err,
    ensures
        parse_functions(r, s, m) == parse_functions(r, s, k),
    decreases m - k,
{
    if k < m {
        lemma_parse_functions_err(r, s, k, (m - 1) as nat);
    }
}

/// What a goto binary holds: its symbols and its functions. Bytes after the
/// last function are not read.
pub open spec fn parse_goto(s: Seq<u8>) -> Result<(Seq<IrepV>, Seq<(Seq<char>, IrepV)>), ReadError> {
    if s.len() < 3 || s.take(3) != gbf_header() {
        Err(ReadError::BadHeader)
    } else {
        match parse_u32(s.skip(3)) {
            Err(e) => Err(e),
            Ok((version, s1)) => if version != GBF_VERSION {
                Err(ReadError::BadVersion)
            } else {
                match parse_u32(s1) {
                    Err(e) => Err(e),
                    Ok((n, s2)) => match parse_refs(empty_reader_state(), s2, n as nat) {
                        Err(e) => Err(e),
                        Ok((r1, symbols, s3)) => match parse_u32(s3) {
                            Err(e) => Err(e),
                            Ok((m, s4)) => match parse_functions(r1, s4, m as nat) {
                                Err(e) => Err(e),
                                Ok((_r2, functions, _s5)) => Ok((symbols, functions)),
                            },
                        },
                    },
                }
            },
        }
    }
}

/// Where reading the goto binary `s` stops, when it succeeds (see
/// [`parse_goto`]): what each string and node number read stands for, and the
/// bytes after the last function. A file that does not read gives its own
/// bytes and no numbers.
pub open spec fn parse_goto_end(s: Seq<u8>) -> (ReaderState, Seq<u8>) {
    let none = (empty_reader_state(), s);
    if s.len() < 3 || s.take(3) != gbf_header() {
        none
    } else {
        match parse_u32(s.skip(3)) {
            Err(_) => none,
            Ok((version, s1)) => if version != GBF_VERSION {
                none
            } else {
                match parse_u32(s1) {
                    Err(_) => none,
                    Ok((n, s2)) => match parse_refs(empty_reader_state(), s2, n as nat) {
                        Err(_) => none,
                        Ok((r1, _symbols, s3)) => match parse_u32(s3) {
                            Err(_) => none,
                            Ok((m, s4)) => match parse_functions(r1, s4, m as nat) {
                                Err(_) => none,
                                Ok((r2, _functions, s5)) => (r2, s5),
                            },
                        },
                    },
                }
            },
        }
    }
}

/// `s` holds no NUL character (which the file would take for the end of the string).
pub open spec fn no_nul(s: Seq<char>) -> bool {
    forall|i: int| 0 <= i < s.len() ==> s[i] != '\0'
}

/// A node that the format carries faithfully: no string in it holds a NUL
/// character, and the named children and the comments of every node are
/// sorted by name (as reading keeps them).
#[verifier::opaque]
pub open spec fn wf_irep(x: IrepV) -> bool
    decreases x,
{
    &&& no_nul(x.id)
    &&& forall|i: int| 0 <= i < x.subt.len() ==> wf_irep(#[trigger] x.subt[i])
    &&& names_sorted(x.named_subt)
    &&& forall|i: int| 0 <= i < x.named_subt.len() ==> no_nul((#[trigger] x.named_subt[i]).0) && wf_irep(x.named_subt[i].1)
    &&& names_sorted(x.comments)
    &&& forall|i: int| 0 <= i < x.comments.len() ==> no_nul((#[trigger] x.comments[i]).0) && wf_irep(x.comments[i].1)
}


/// Every named child list and comment list in `x`, at any depth, is sorted
/// by name. Every `Irept` has this property (see `IrepMap`).
#[verifier::opaque]
pub open spec fn sorted_irep(x: IrepV) -> bool
    decreases x,
{
    &&& names_sorted(x.named_subt)
    &&& names_sorted(x.comments)
    &&& forall|i: int| 0 <= i < x.subt.len() ==> sorted_irep(#[trigger] x.subt[i])
    &&& forall|i: int| 0 <= i < x.named_subt.len() ==> sorted_irep((#[trigger] x.named_subt[i]).1)
    &&& forall|i: int| 0 <= i < x.comments.len() ==> sorted_irep((#[trigger] x.comments[i]).1)
}

/// No identifier or name in `x`, at any depth, holds a NUL character.
#[verifier::opaque]
pub open spec fn nul_free_irep(x: IrepV) -> bool
    decreases x,
{
    &&& no_nul(x.id)
    &&& forall|i: int| 0 <= i < x.subt.len() ==> nul_free_irep(#[trigger] x.subt[i])
    &&& forall|i: int| 0 <= i < x.named_subt.len() ==> no_nul((#[trigger] x.named_subt[i]).0) && nul_free_irep(x.named_subt[i].1)
    &&& forall|i: int| 0 <= i < x.comments.len() ==> no_nul((#[trigger] x.comments[i]).0) && nul_free_irep(x.comments[i].1)
}

/// A sorted node without NUL characters is carried faithfully.
pub proof fn lemma_wf_irep(x: IrepV)
    requires
        sorted_irep(x),
        nul_free_irep(x),
    ensures
        wf_irep(x),
    decreases x,
{
    reveal(sorted_irep);
    reveal(nul_free_irep);
    reveal(wf_irep);
    assert forall|i: int| 0 <= i < x.subt.len() implies wf_irep(#[trigger] x.subt[i]) by {
        lemma_wf_irep(x.subt[i]);
    }
    assert forall|i: int| 0 <= i < x.named_subt.len() implies no_nul((#[trigger] x.named_subt[i]).0) && wf_irep(x.named_subt[i].1) by {
        lemma_wf_irep(x.named_subt[i].1);
    }
    assert forall|i: int| 0 <= i < x.comments.len() implies no_nul((#[trigger] x.comments[i]).0) && wf_irep(x.comments[i].1) by {
        lemma_wf_irep(x.comments[i].1);
    }
}

} // verus!
