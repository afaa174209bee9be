//! Writing nodes in the goto binary format.
use crate::gbf::{
    be32, empty_writer_state, gbf_header, ser_entries, ser_functions, ser_irep, ser_ref,
    ser_refs, ser_string, ser_string_ref, ser_subs, serialize_goto, WriterState, COMMENT_TAG,
    GBF_VERSION, NAMED_TAG, SUB_TAG,
};
use crate::gbf::{
    goto_writer_state, lemma_wf_irep, no_nul, nul_free_irep, parse_goto, sorted_irep, wf_irep,
    ReadError,
};
use crate::roundtrip::{fits_u32, lemma_goto_roundtrip};
use crate::irep::{
    copy_irep, entry_views, irep_eq, IrepMap, irep_view, irep_views, lemma_entry_views, lemma_irep_views,
    IrepV, Irept,
};
use vstd::prelude::*;

verus! {

/// Builds a goto binary in memory. Strings and nodes are written once; a
/// later occurrence of an equal string or node is written as the number of
/// the first.
pub struct ByteWriter {
    file: Vec<u8>,
    irep_container: Vec<Irept>,
    string_ref_container: Vec<String>,
}

pub open spec fn string_views(s: Seq<String>) -> Seq<Seq<char>> {
    s.map_values(|t: String| t@)
}

impl ByteWriter {
    /// The tables: strings and nodes in the order they were first written.
    pub closed spec fn state(&self) -> WriterState {
        WriterState { strings: string_views(self.string_ref_container@), ireps: irep_views(self.irep_container@) }
    }

    /// The bytes written so far.
    pub closed spec fn bytes(&self) -> Seq<u8> {
        self.file@
    }

    /// No string and no node is in the tables twice, and every map in the
    /// nodes of the table is sorted by name.
    pub closed spec fn wf(&self) -> bool {
        &&& self.state().strings.no_duplicates()
        &&& self.state().ireps.no_duplicates()
        &&& forall|k: int| 0 <= k < self.state().ireps.len() ==> sorted_irep(#[trigger] self.state().ireps[k])
    }

    /// A writer with nothing written.
    pub fn new() -> (w: ByteWriter)
        ensures
            w.wf(),
            w.state() == empty_writer_state(),
            w.bytes() == Seq::<u8>::empty(),
    {
        let w = ByteWriter { file: Vec::new(), irep_container: Vec::new(), string_ref_container: Vec::new() };
        proof {
            assert(string_views(w.string_ref_container@) =~= Seq::<Seq<char>>::empty());
            assert(irep_views(w.irep_container@) =~= Seq::<IrepV>::empty());
        }
        w
    }

    /// The bytes written so far.
    pub fn into_bytes(self) -> (r: Vec<u8>)
        ensures
            r@ == self.bytes(),
    {
        self.file
    }

    /// Appends one byte.
    fn write_byte(&mut self, value: u8)
        requires
            old(self).wf(),
        ensures
            final(self).wf(),
            final(self).state() == old(self).state(),
            final(self).bytes() == old(self).bytes().push(value),
    {
        self.file.push(value);
    }

    /// Appends `value`, most significant byte first.
    pub fn write_u32(&mut self, value: u32)
        requires
            old(self).wf(),
        ensures
            final(self).wf(),
            final(self).state() == old(self).state(),
            final(self).bytes() == old(self).bytes() + be32(value),
    {
        self.file.push((value >> 24u32) as u8);
        self.file.push((value >> 16u32) as u8);
        self.file.push((value >> 8u32) as u8);
        self.file.push(value as u8);
        assert(self.file@ =~= old(self).file@ + be32(value));
    }

    /// Appends the UTF-8 bytes of `value` and a zero byte.
    pub fn write_string(&mut self, value: &str)
        requires
            old(self).wf(),
        ensures
            final(self).wf(),
            final(self).state() == old(self).state(),
            final(self).bytes() == old(self).bytes() + ser_string(value@),
    {
        let b = value.as_bytes();
        let n = b.len();
        for i in 0..n
            invariant
                n == b@.len(),
                self.wf(),
                self.state() == old(self).state(),
                self.bytes() == old(self).bytes() + b@.take(i as int),
        {
            self.file.push(b[i]);
            assert(b@.take(i + 1) =~= b@.take(i as int).push(b@[i as int]));
            assert(self.file@ =~= old(self).file@ + b@.take(i + 1));
        }
        self.file.push(0u8);
        assert(b@.take(n as int) =~= b@);
        assert(self.file@ =~= old(self).file@ + ser_string(value@));
    }

    /// Appends a reference to the string `value` (see [`ser_string_ref`]).
    pub fn write_string_reference(&mut self, value: &str)
        requires
            old(self).wf(),
        ensures
            final(self).wf(),
            final(self).state() == ser_string_ref(old(self).state(), value@).0,
            final(self).bytes() == old(self).bytes() + ser_string_ref(old(self).state(), value@).1,
    {
        let ghost strings = self.state().strings;
        let owned = value.to_owned();
        let n = self.string_ref_container.len();
        for i in 0..n
            invariant
                n == self.string_ref_container.len(),
                *self == *old(self),
                self.wf(),
                strings == self.state().strings,
                strings.len() == n,
                forall|j: int| 0 <= j < n ==> #[trigger] strings[j] == self.string_ref_container@[j]@,
                forall|j: int| 0 <= j < i ==> strings[j] != value@,
                owned@ == value@,
        {
            if self.string_ref_container[i] == owned {
                proof {
                    assert(strings[i as int] == value@);
                    assert(strings.contains(value@));
                    let k = strings.index_of(value@);
                    assert(strings[k] == value@);
                    assert(k == i);
                }
                self.write_u32(#[verifier::truncate] (i as u32));
                return;
            }
        }
        assert(!strings.contains(value@));
        let id = #[verifier::truncate] (n as u32);
        self.string_ref_container.push(owned);
        assert(self.state().strings =~= strings.push(value@));
        self.write_u32(id);
        self.write_string(value);
        assert(self.bytes() =~= old(self).bytes() + (be32(id) + ser_string(value@)));
    }

    /// Appends a reference to the node `value` (see [`ser_ref`]). Every map
    /// in `value`, at any depth, is sorted by name.
    pub fn write_reference(&mut self, value: &Irept)
        requires
            old(self).wf(),
        ensures
            final(self).wf(),
            sorted_irep(value@),
            final(self).state() == ser_ref(old(self).state(), value@).0,
            final(self).bytes() == old(self).bytes() + ser_ref(old(self).state(), value@).1,
        decreases value@, 1int,
    {
        proof {
            reveal(ser_ref);
        }
        let ghost ireps = self.state().ireps;
        proof {
            lemma_irep_views(self.irep_container@);
        }
        let n = self.irep_container.len();
        for i in 0..n
            invariant
                n == self.irep_container.len(),
                *self == *old(self),
                self.wf(),
                ireps == self.state().ireps,
                ireps.len() == n,
                forall|j: int| 0 <= j < n ==> #[trigger] ireps[j] == irep_view(self.irep_container@[j]),
                forall|j: int| 0 <= j < i ==> ireps[j] != value@,
        {
            if irep_eq(&self.irep_container[i], value) {
                proof {
                    reveal(ser_ref);
                    assert(ireps[i as int] == value@);
                    assert(ireps.contains(value@));
                    let k = ireps.index_of(value@);
                    assert(ireps[k] == value@);
                    assert(k == i);
                }
                self.write_u32(#[verifier::truncate] (i as u32));
                return;
            }
        }
        assert(!ireps.contains(value@));
        let id = #[verifier::truncate] (n as u32);
        let c = copy_irep(value);
        self.irep_container.push(c);
        proof {
            lemma_irep_views(self.irep_container@);
            assert(self.state().ireps =~= ireps.push(value@));
        }
        self.write_u32(id);
        self.write_irep(value);
        proof {
            let w1 = WriterState { strings: old(self).state().strings, ireps: ireps.push(value@) };
            assert(self.bytes() =~= old(self).bytes() + (be32(id) + ser_irep(w1, value@).1));
        }
    }

    /// Appends named entries, each behind `tag` (see [`ser_entries`]).
    pub fn write_entries(&mut self, m: &IrepMap, tag: u8)
        requires
            old(self).wf(),
        ensures
            final(self).wf(),
            final(self).state() == ser_entries(old(self).state(), m.entries_view(), tag).0,
            final(self).bytes() == old(self).bytes() + ser_entries(old(self).state(), m.entries_view(), tag).1,
        decreases m.entries_view(), 0int,
    {
        let ghost es = m.entries_view();
        let ghost w0 = self.state();
        let ghost b0 = self.bytes();
        proof {
            assert(es.take(0) =~= Seq::<(Seq<char>, IrepV)>::empty());
        }
        let n = m.len();
        for i in 0..n
            invariant
                n == es.len(),
                self.wf(),
                es == m.entries_view(),
                self.state() == ser_entries(w0, es.take(i as int), tag).0,
                self.bytes() == b0 + ser_entries(w0, es.take(i as int), tag).1,
        {
            let ghost w_before = self.state();
            let ghost b_before = self.bytes();
            self.write_byte(tag);
            self.write_string_reference(m.name(i).as_str());
            self.write_reference(m.value(i));
            proof {
                reveal(ser_ref);
                let t = es.take(i + 1);
                assert(t.drop_last() =~= es.take(i as int));
                assert(t.last() == es[i as int]);
                let (w1, b1) = ser_entries(w0, es.take(i as int), tag);
                let (w2, b2) = ser_string_ref(w1, es[i as int].0);
                let (w3, b3) = ser_ref(w2, es[i as int].1);
                assert(ser_entries(w0, t, tag) == (w3, b1 + seq![tag] + b2 + b3));
                assert(self.bytes() =~= b0 + (b1 + seq![tag] + b2 + b3));
            }
        }
        assert(es.take(n as int) =~= es);
    }

    /// Appends the body of the node `value` (see [`ser_irep`]).
    pub fn write_irep(&mut self, value: &Irept)
        requires
            old(self).wf(),
        ensures
            final(self).wf(),
            final(self).state() == ser_irep(old(self).state(), value@).0,
            final(self).bytes() == old(self).bytes() + ser_irep(old(self).state(), value@).1,
        decreases value@, 0int,
    {
        let ghost x = value@;
        let ghost w0 = self.state();
        let ghost b0 = self.bytes();
        self.write_string_reference(value.id.as_str());
        let ghost w1 = self.state();
        let ghost b1 = self.bytes();
        proof {
            lemma_irep_views(value.subt@);
            assert(x.subt == irep_views(value.subt@));
            assert(x.subt.take(0) =~= Seq::<IrepV>::empty());
        }
        let n = value.subt.len();
        for i in 0..n
            invariant
                n == value.subt.len(),
                self.wf(),
                x == value@,
                x.subt == irep_views(value.subt@),
                x.subt.len() == n,
                forall|j: int| 0 <= j < n ==> #[trigger] x.subt[j] == irep_view(value.subt@[j]),
                self.state() == ser_subs(w1, x.subt.take(i as int)).0,
                self.bytes() == b1 + ser_subs(w1, x.subt.take(i as int)).1,
        {
            self.write_byte(SUB_TAG);
            assert(x.subt[i as int] == value.subt@[i as int]@);
            assert(decreases_to!(x => x.subt[i as int]));
            self.write_reference(&value.subt[i]);
            proof {
                reveal(ser_ref);
                let t = x.subt.take(i + 1);
                assert(t.drop_last() =~= x.subt.take(i as int));
                assert(t.last() == x.subt[i as int]);
                let (wa, ba) = ser_subs(w1, x.subt.take(i as int));
                let (wb, bb) = ser_ref(wa, x.subt[i as int]);
                assert(ser_subs(w1, t) == (wb, ba + seq![SUB_TAG] + bb));
                assert(self.bytes() =~= b1 + (ba + seq![SUB_TAG] + bb));
            }
        }
        assert(x.subt.take(n as int) =~= x.subt);
        let ghost w2 = self.state();
        let ghost b2 = self.bytes();
        assert(decreases_to!(x => x.named_subt));
        self.write_entries(&value.named_subt, NAMED_TAG);
        let ghost w3 = self.state();
        let ghost b3 = self.bytes();
        assert(decreases_to!(x => x.comments));
        self.write_entries(&value.comments, COMMENT_TAG);
        self.write_byte(0u8);
        proof {
            let (v1, c1) = ser_string_ref(w0, x.id);
            let (v2, c2) = ser_subs(v1, x.subt);
            let (v3, c3) = ser_entries(v2, x.named_subt, NAMED_TAG);
            let (v4, c4) = ser_entries(v3, x.comments, COMMENT_TAG);
            assert(self.bytes() =~= b0 + (c1 + c2 + c3 + c4.push(0u8)));
        }
    }

    /// The goto binary that holds `symbols` and then `functions` (see
    /// [`serialize_goto`]). Reading it back gives `symbols` and `functions`
    /// whenever no identifier or name holds a NUL character and the counts
    /// and numbers fit in a word.
    pub fn write_to_bytes(symbols: Vec<Irept>, functions: Vec<(String, Irept)>) -> (r: Vec<u8>)
        ensures
            r@ == serialize_goto(irep_views(symbols@), entry_views(functions@)),
            ({
                let syms = irep_views(symbols@);
                let funs = entry_views(functions@);
                (forall|i: int| 0 <= i < syms.len() ==> nul_free_irep(#[trigger] syms[i]))
                    && (forall|i: int| 0 <= i < funs.len() ==> no_nul((#[trigger] funs[i]).0) && nul_free_irep(funs[i].1))
                    && symbols.len() <= u32::MAX && functions.len() <= u32::MAX
                    && fits_u32(goto_writer_state(syms, funs))
                    ==> parse_goto(r@) == Ok::<(Seq<IrepV>, Seq<(Seq<char>, IrepV)>), ReadError>((syms, funs))
            }),
    {
        let ghost syms = irep_views(symbols@);
        let ghost funs = entry_views(functions@);
        let mut writer = ByteWriter::new();
        writer.write_byte(0x47u8);
        writer.write_byte(0x42u8);
        writer.write_byte(0x46u8);
        writer.write_u32(1);
        writer.write_u32(#[verifier::truncate] (symbols.len() as u32));
        let ghost b0 = writer.bytes();
        proof {
            lemma_irep_views(symbols@);
            lemma_entry_views(functions@);
            assert(syms.take(0) =~= Seq::<IrepV>::empty());
        }
        let n = symbols.len();
        for i in 0..n
            invariant
                n == symbols.len(),
                writer.wf(),
                syms == irep_views(symbols@),
                syms.len() == n,
                forall|j: int| 0 <= j < n ==> #[trigger] syms[j] == irep_view(symbols@[j]),
                writer.state() == ser_refs(empty_writer_state(), syms.take(i as int)).0,
                writer.bytes() == b0 + ser_refs(empty_writer_state(), syms.take(i as int)).1,
                forall|j: int| 0 <= j < i ==> sorted_irep(#[trigger] syms[j]),
        {
            writer.write_reference(&symbols[i]);
            proof {
                let t = syms.take(i + 1);
                assert(t.drop_last() =~= syms.take(i as int));
                let (wa, ba) = ser_refs(empty_writer_state(), syms.take(i as int));
                let (wb, bb) = ser_ref(wa, syms[i as int]);
                assert(ser_refs(empty_writer_state(), t) == (wb, ba + bb));
                assert(writer.bytes() =~= b0 + (ba + bb));
            }
        }
        assert(syms.take(n as int) =~= syms);
        let ghost w1 = writer.state();
        writer.write_u32(#[verifier::truncate] (functions.len() as u32));
        let ghost b1 = writer.bytes();
        proof {
            assert(funs.take(0) =~= Seq::<(Seq<char>, IrepV)>::empty());
        }
        let m = functions.len();
        for i in 0..m
            invariant
                m == functions.len(),
                writer.wf(),
                funs == entry_views(functions@),
                funs.len() == m,
                forall|j: int| 0 <= j < m ==> #[trigger] funs[j] == (functions@[j].0@, irep_view(functions@[j].1)),
                writer.state() == ser_functions(w1, funs.take(i as int)).0,
                writer.bytes() == b1 + ser_functions(w1, funs.take(i as int)).1,
                forall|j: int| 0 <= j < n ==> sorted_irep(#[trigger] syms[j]),
                forall|j: int| 0 <= j < i ==> sorted_irep((#[trigger] funs[j]).1),
        {
            writer.write_string(functions[i].0.as_str());
            writer.write_reference(&functions[i].1);
            proof {
                let t = funs.take(i + 1);
                assert(t.drop_last() =~= funs.take(i as int));
                let (wa, ba) = ser_functions(w1, funs.take(i as int));
                let (wb, bb) = ser_ref(wa, funs[i as int].1);
                assert(ser_functions(w1, t) == (wb, ba + ser_string(funs[i as int].0) + bb));
                assert(writer.bytes() =~= b1 + (ba + ser_string(funs[i as int].0) + bb));
            }
        }
        assert(funs.take(m as int) =~= funs);
        let r = writer.into_bytes();
        proof {
            if (forall|i: int| 0 <= i < syms.len() ==> nul_free_irep(#[trigger] syms[i]))
                && (forall|i: int| 0 <= i < funs.len() ==> no_nul((#[trigger] funs[i]).0) && nul_free_irep(funs[i].1))
                && symbols.len() <= u32::MAX && functions.len() <= u32::MAX
                && fits_u32(goto_writer_state(syms, funs)) {
                assert forall|i: int| 0 <= i < syms.len() implies wf_irep(#[trigger] syms[i]) by {
                    lemma_wf_irep(syms[i]);
                }
                assert forall|i: int| 0 <= i < funs.len() implies no_nul((#[trigger] funs[i]).0) && wf_irep(funs[i].1) by {
                    lemma_wf_irep(funs[i].1);
                }
                lemma_goto_roundtrip(syms, funs);
            }
            let (v1, c1) = ser_refs(empty_writer_state(), syms);
            let (v2, c2) = ser_functions(v1, funs);
            assert(r@ =~= gbf_header() + be32(GBF_VERSION) + be32(syms.len() as u32) + c1 + be32(funs.len() as u32) + c2);
        }
        r
    }
}

} // verus!
