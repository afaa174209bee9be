//! Reading nodes from bytes in the goto binary format.
use crate::gbf::{
    empty_reader_state, add_entry, gbf_header, lemma_nul_position, nul_position, parse_cstring,
    parse_fields, parse_ref, parse_string_ref, parse_u32, ReadError, ReaderState,
    COMMENT_TAG, GBF_VERSION, NAMED_TAG, SUB_TAG,
};
use crate::irep::{copy_irep, lemma_irep_views_push, IrepV, Irept};
use std::collections::HashMap;
use vstd::prelude::*;
use vstd::utf8::{encode_utf8, encode_utf8_decode_utf8, valid_utf8};
use vstd::slice::slice_subrange;

verus! {

/// `std::str::from_utf8`: the bytes as a string slice when they are valid
/// UTF-8, `None` otherwise. The slice holds exactly the given bytes.
#[verifier::external_body]
fn str_from_utf8(bytes: &[u8]) -> (r: Option<&str>)
    ensures
        r is Some <==> valid_utf8(bytes@),
        r matches Some(s) ==> encode_utf8(s@) == bytes@,
{
    std::str::from_utf8(bytes).ok()
}

/// What each number read so far stands for.
#[derive(Clone, Debug)]
pub struct ReaderTables {
    strings: HashMap<u32, String>,
    ireps: HashMap<u32, Irept>,
}

impl ReaderTables {
    pub closed spec fn state(&self) -> ReaderState {
        ReaderState {
            strings: self.strings@.map_values(|s: String| s@),
            ireps: self.ireps@.map_values(|x: Irept| x@),
        }
    }

    pub fn new() -> (t: ReaderTables)
        ensures
            t.state() == empty_reader_state(),
    {
        let t = ReaderTables { strings: HashMap::new(), ireps: HashMap::new() };
        assert(t.state().strings =~= Map::<u32, Seq<char>>::empty());
        assert(t.state().ireps =~= Map::<u32, IrepV>::empty());
        t
    }
}

/// The word at `pos`, most significant byte first (see [`parse_u32`]).
pub fn read_u32_at(data: &Vec<u8>, pos: usize) -> (res: Result<(u32, usize), ReadError>)
    requires
        pos <= data.len(),
    ensures
        match parse_u32(data@.skip(pos as int)) {
            Ok((v, rest)) => res == Ok::<(u32, usize), ReadError>((v, (pos + 4) as usize))
                && pos + 4 <= data.len() && rest == data@.skip(pos + 4),
            Err(e) => res == Err::<(u32, usize), ReadError>(e),
        },
{
    if data.len() - pos < 4 {
        return Err(ReadError::UnexpectedEnd);
    }
    let v = ((data[pos] as u32) << 24u32) | ((data[pos + 1] as u32) << 16u32)
        | ((data[pos + 2] as u32) << 8u32) | (data[pos + 3] as u32);
    proof {
        let s = data@.skip(pos as int);
        assert(s[0] == data@[pos as int]);
        assert(s[1] == data@[pos + 1]);
        assert(s[2] == data@[pos + 2]);
        assert(s[3] == data@[pos + 3]);
        assert(s.skip(4) =~= data@.skip(pos + 4));
    }
    Ok((v, pos + 4))
}

/// The zero-terminated string at `pos` (see [`parse_cstring`]).
pub fn read_cstring_at(data: &Vec<u8>, pos: usize) -> (res: Result<(String, usize), ReadError>)
    requires
        pos <= data.len(),
    ensures
        match parse_cstring(data@.skip(pos as int)) {
            Ok((t, rest)) => res matches Ok((x, p)) && x@ == t && pos < p <= data.len()
                && rest == data@.skip(p as int),
            Err(e) => res == Err::<(String, usize), ReadError>(e),
        },
{
    let ghost s = data@.skip(pos as int);
    proof {
        lemma_nul_position(s);
    }
    let mut j = pos;
    while j < data.len() && data[j] != 0
        invariant
            pos <= j <= data.len(),
            s == data@.skip(pos as int),
            forall|k: int| pos <= k < j ==> data@[k] != 0,
        decreases data.len() - j,
    {
        j = j + 1;
    }
    if j == data.len() {
        proof {
            if nul_position(s) >= 0 {
                assert(s[nul_position(s)] == data@[pos + nul_position(s)]);
            }
        }
        return Err(ReadError::UnexpectedEnd);
    }
    proof {
        assert(s[j - pos] == data@[j as int]);
        if nul_position(s) >= 0 && nul_position(s) < j - pos {
            assert(s[nul_position(s)] == data@[pos + nul_position(s)]);
        }
        assert(nul_position(s) == j - pos);
    }
    let bytes = slice_subrange(data.as_slice(), pos, j);
    assert(bytes@ =~= s.take(j - pos));
    match str_from_utf8(bytes) {
        None => Err(ReadError::BadString),
        Some(text) => {
            proof {
                encode_utf8_decode_utf8(text@);
                assert(s.skip(j - pos + 1) =~= data@.skip(j + 1));
            }
            Ok((text.to_owned(), j + 1))
        },
    }
}

/// The string reference at `pos` (see [`parse_string_ref`]).
pub fn read_string_ref_at(data: &Vec<u8>, pos: usize, t: &mut ReaderTables) -> (res: Result<(String, usize), ReadError>)
    requires
        pos <= data.len(),
    ensures
        match parse_string_ref(old(t).state(), data@.skip(pos as int)) {
            Ok((r1, text, rest)) => res matches Ok((x, p)) && x@ == text && pos < p <= data.len()
                && rest == data@.skip(p as int) && final(t).state() == r1,
            Err(e) => res == Err::<(String, usize), ReadError>(e),
        },
{
    let (id, p1) = match read_u32_at(data, pos) {
        Ok(v) => v,
        Err(e) => return Err(e),
    };
    match t.strings.get(&id) {
        Some(x) => {
            return Ok((x.clone(), p1));
        },
        None => {},
    }
    let (text, p2) = match read_cstring_at(data, p1) {
        Ok(v) => v,
        Err(e) => return Err(e),
    };
    let ghost old_state = t.state();
    t.strings.insert(id, text.clone());
    proof {
        assert(t.state().strings =~= old_state.strings.insert(id, text@));
        assert(t.state().ireps =~= old_state.ireps);
    }
    Ok((text, p2))
}

/// The node reference at `pos` (see [`parse_ref`]).
pub fn read_ref_at(data: &Vec<u8>, pos: usize, t: &mut ReaderTables) -> (res: Result<(Irept, usize), ReadError>)
    requires
        pos <= data.len(),
    ensures
        match parse_ref(old(t).state(), data@.skip(pos as int)) {
            Ok((r1, x, rest)) => res matches Ok((y, p)) && y@ == x && pos < p <= data.len()
                && rest == data@.skip(p as int) && final(t).state() == r1,
            Err(e) => res == Err::<(Irept, usize), ReadError>(e),
        },
    decreases data.len() - pos,
{
    proof {
        reveal(parse_ref);
    }
    let (id, p1) = match read_u32_at(data, pos) {
        Ok(v) => v,
        Err(e) => return Err(e),
    };
    match t.ireps.get(&id) {
        Some(x) => {
            return Ok((copy_irep(x), p1));
        },
        None => {},
    }
    let (name, p2) = match read_string_ref_at(data, p1, t) {
        Ok(v) => v,
        Err(e) => return Err(e),
    };
    let acc = Irept::from_string(name);
    let (x, p3) = match read_fields_at(data, p2, t, acc) {
        Ok(v) => v,
        Err(e) => return Err(e),
    };
    let ghost old_state = t.state();
    t.ireps.insert(id, copy_irep(&x));
    proof {
        assert(t.state().ireps =~= old_state.ireps.insert(id, x@));
        assert(t.state().strings =~= old_state.strings);
    }
    Ok((x, p3))
}

/// The tagged fields at `pos`, up to the node's terminating zero, added to
/// `acc` (see [`parse_fields`]).
pub fn read_fields_at(data: &Vec<u8>, pos: usize, t: &mut ReaderTables, start: Irept) -> (res: Result<(Irept, usize), ReadError>)
    requires
        pos <= data.len(),
    ensures
        match parse_fields(old(t).state(), data@.skip(pos as int), start@) {
            Ok((r1, x, rest)) => res matches Ok((y, p)) && y@ == x && pos < p <= data.len()
                && rest == data@.skip(p as int) && final(t).state() == r1,
            Err(e) => res == Err::<(Irept, usize), ReadError>(e),
        },
    decreases data.len() - pos,
{
    let ghost target = parse_fields(t.state(), data@.skip(pos as int), start@);
    let ghost t0 = t.state();
    let ghost acc0 = start@;
    let mut acc = start;
    let mut cur = pos;
    while cur < data.len()
        invariant
            pos <= cur <= data.len(),
            target == parse_fields(t.state(), data@.skip(cur as int), acc@),
            target == parse_fields(t0, data@.skip(pos as int), acc0),
            t0 == old(t).state(),
            acc0 == start@,
        decreases data.len() - cur,
    {
        proof {
            reveal(parse_ref);
        }
        let ghost s = data@.skip(cur as int);
        let b = data[cur];
        assert(s[0] == b);
        assert(s.skip(1) =~= data@.skip(cur + 1));
        if b == 0 {
            assert(target == Ok::<(ReaderState, IrepV, Seq<u8>), ReadError>((t.state(), acc@, s.skip(1))));
            return Ok((acc, cur + 1));
        } else if b == SUB_TAG {
            let (x, p) = match read_ref_at(data, cur + 1, t) {
                Ok(v) => v,
                Err(e) => return Err(e),
            };
            let ghost before = acc@;
            let ghost subt_before = acc.subt@;
            acc.subt.push(x);
            proof {
                lemma_irep_views_push(subt_before, x);
                assert(acc@ == IrepV { subt: before.subt.push(x@), ..before });
            }
            cur = p;
        } else if b == NAMED_TAG || b == COMMENT_TAG {
            let (k, p1) = match read_string_ref_at(data, cur + 1, t) {
                Ok(v) => v,
                Err(e) => return Err(e),
            };
            let (x, p2) = match read_ref_at(data, p1, t) {
                Ok(v) => v,
                Err(e) => return Err(e),
            };
            let ghost before = acc@;
            if b == NAMED_TAG {
                acc.named_subt.insert(k, x);
            } else {
                acc.comments.insert(k, x);
            }
            assert(acc@ == add_entry(before, b, k@, x@));
            cur = p2;
        } else {
            return Err(ReadError::BadTag);
        }
    }
    Err(ReadError::UnexpectedEnd)
}

/// Reads a goto binary held in memory, front to back.
#[derive(Clone, Debug)]
pub struct ByteReader {
    file: Vec<u8>,
    pos: usize,
    tables: ReaderTables,
}

impl ByteReader {
    /// The bytes not read yet.
    pub closed spec fn remaining(&self) -> Seq<u8> {
        self.file@.skip(self.pos as int)
    }

    /// What each number read so far stands for.
    pub closed spec fn state(&self) -> ReaderState {
        self.tables.state()
    }

    pub closed spec fn wf(&self) -> bool {
        self.pos <= self.file.len()
    }

    /// A reader at the start of `file`.
    pub fn new(file: Vec<u8>) -> (r: ByteReader)
        ensures
            r.wf(),
            r.remaining() == file@,
            r.state() == empty_reader_state(),
    {
        let r = ByteReader { file, pos: 0, tables: ReaderTables::new() };
        assert(r.file@.skip(0) =~= r.file@);
        r
    }

    /// Consumes the header `GBF`; fails with `BadHeader`, consuming nothing,
    /// when the bytes do not start with it.
    pub fn check_esbmc_header(&mut self) -> (res: Result<(), ReadError>)
        requires
            old(self).wf(),
        ensures
            final(self).wf(),
            final(self).state() == old(self).state(),
            res is Ok <==> old(self).remaining().len() >= 3 && old(self).remaining().take(3) == gbf_header(),
            res is Ok ==> final(self).remaining() == old(self).remaining().skip(3),
            res is Err ==> res == Err::<(), ReadError>(ReadError::BadHeader) && final(self).remaining() == old(self).remaining(),
    {
        let ghost s = self.remaining();
        if self.file.len() - self.pos < 3 {
            return Err(ReadError::BadHeader);
        }
        let p = self.pos;
        proof {
            assert(s[0] == self.file@[p as int]);
            assert(s[1] == self.file@[p + 1]);
            assert(s[2] == self.file@[p + 2]);
        }
        if self.file[p] != 0x47u8 || self.file[p + 1] != 0x42u8 || self.file[p + 2] != 0x46u8 {
            proof {
                if s.take(3) == gbf_header() {
                    assert(s.take(3)[0] == s[0]);
                    assert(s.take(3)[1] == s[1]);
                    assert(s.take(3)[2] == s[2]);
                }
            }
            return Err(ReadError::BadHeader);
        }
        self.pos = p + 3;
        assert(s.take(3) =~= gbf_header());
        assert(s.skip(3) =~= self.file@.skip(p + 3));
        Ok(())
    }

    /// Consumes the version word; fails with `BadVersion` when it is not 1.
    pub fn check_esbmc_version(&mut self) -> (res: Result<(), ReadError>)
        requires
            old(self).wf(),
        ensures
            final(self).wf(),
            final(self).state() == old(self).state(),
            match parse_u32(old(self).remaining()) {
                Ok((v, rest)) => if v == GBF_VERSION {
                    res is Ok && final(self).remaining() == rest
                } else {
                    res == Err::<(), ReadError>(ReadError::BadVersion)
                },
                Err(e) => res == Err::<(), ReadError>(e),
            },
    {
        let (v, p) = match read_u32_at(&self.file, self.pos) {
            Ok(x) => x,
            Err(e) => return Err(e),
        };
        if v != 1 {
            return Err(ReadError::BadVersion);
        }
        self.pos = p;
        Ok(())
    }

    /// Reads a word (see [`parse_u32`]).
    pub fn read_esbmc_word(&mut self) -> (res: Result<u32, ReadError>)
        requires
            old(self).wf(),
        ensures
            final(self).wf(),
            final(self).state() == old(self).state(),
            match parse_u32(old(self).remaining()) {
                Ok((v, rest)) => res == Ok::<u32, ReadError>(v) && final(self).remaining() == rest,
                Err(e) => res == Err::<u32, ReadError>(e),
            },
    {
        let (v, p) = match read_u32_at(&self.file, self.pos) {
            Ok(x) => x,
            Err(e) => return Err(e),
        };
        self.pos = p;
        Ok(v)
    }

    /// Reads a zero-terminated string (see [`parse_cstring`]).
    pub fn read_esbmc_string(&mut self) -> (res: Result<String, ReadError>)
        requires
            old(self).wf(),
        ensures
            final(self).wf(),
            final(self).state() == old(self).state(),
            match parse_cstring(old(self).remaining()) {
                Ok((text, rest)) => res matches Ok(x) && x@ == text && final(self).remaining() == rest,
                Err(e) => res == Err::<String, ReadError>(e),
            },
    {
        let (x, p) = match read_cstring_at(&self.file, self.pos) {
            Ok(v) => v,
            Err(e) => return Err(e),
        };
        self.pos = p;
        Ok(x)
    }

    /// Reads a string reference (see [`parse_string_ref`]).
    pub fn read_esbmc_string_reference(&mut self) -> (res: Result<String, ReadError>)
        requires
            old(self).wf(),
        ensures
            final(self).wf(),
            match parse_string_ref(old(self).state(), old(self).remaining()) {
                Ok((r1, text, rest)) => res matches Ok(x) && x@ == text && final(self).remaining() == rest
                    && final(self).state() == r1,
                Err(e) => res == Err::<String, ReadError>(e),
            },
    {
        let (x, p) = match read_string_ref_at(&self.file, self.pos, &mut self.tables) {
            Ok(v) => v,
            Err(e) => return Err(e),
        };
        self.pos = p;
        Ok(x)
    }

    /// Reads a node reference (see [`parse_ref`]).
    pub fn read_esbmc_reference(&mut self) -> (res: Result<Irept, ReadError>)
        requires
            old(self).wf(),
        ensures
            final(self).wf(),
            match parse_ref(old(self).state(), old(self).remaining()) {
                Ok((r1, x, rest)) => res matches Ok(y) && y@ == x && final(self).remaining() == rest
                    && final(self).state() == r1,
                Err(e) => res == Err::<Irept, ReadError>(e),
            },
    {
        let (x, p) = match read_ref_at(&self.file, self.pos, &mut self.tables) {
            Ok(v) => v,
            Err(e) => return Err(e),
        };
        self.pos = p;
        Ok(x)
    }
}

} // verus!
