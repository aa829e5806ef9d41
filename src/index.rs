//! The vault registry: a list of names kept consistent with the bytes of its
//! index file.

use crate::layout::{
    check_header, free_slot, fresh_header, header_bytes, header_valid, lemma_free_slot,
    lemma_fresh_header_valid, lemma_name_record, lemma_names_agree, lemma_names_fill,
    lemma_names_in_contains, lemma_slot_of, lemma_write_slot, lemma_zeros_blank, listed_names,
    name_bytes, name_record, names_in, occupied, overwrite, padded_record, record, record_holds,
    record_is_blank, record_name_end, records_decodable, slot_count, slot_decodable, slot_name,
    slot_of, slot_offset, valid_name, zeros, FileEdit, HEADER_SIZE, RECORD_SIZE,
};
use vstd::multiset::*;
use vstd::prelude::*;
use vstd::seq_lib::*;
use vstd::utf8::*;

verus! {

broadcast use {to_multiset_build, to_multiset_remove, to_multiset_contains, group_multiset_axioms};

/// Why an operation on the index was refused.
#[derive(Clone, Copy, Debug, PartialEq, Eq, Structural)]
pub enum IndexError {
    /// The name is empty.
    EmptyName,
    /// The UTF-8 form of the name is longer than a slot.
    NameTooLong,
    /// The name holds a zero byte, which marks the end of a stored name.
    NulInName,
    /// A slot of the file holds bytes that are not UTF-8.
    InvalidData,
}

impl IndexError {
    /// Whether the error rejects the caller's input rather than the file.
    pub fn is_input_error(&self) -> (r: bool)
        ensures
            r == !(*self is InvalidData),
    {
        !matches!(self, IndexError::InvalidData)
    }
}

/// The characters of each string, in order.
pub open spec fn texts(v: Seq<String>) -> Seq<Seq<char>> {
    v.map_values(|s: String| s@)
}

/// What an index holds: its names in list order, and the bytes that its file
/// holds once every recorded edit has been made.
pub struct IndexState {
    pub names: Seq<Seq<char>>,
    pub file: Seq<u8>,
}

impl IndexState {
    /// The file is recognised and readable, and the list holds the names
    /// that a scan of the file finds, each as often, in any order.
    pub open spec fn consistent(self) -> bool {
        &&& header_valid(self.file)
        &&& records_decodable(self.file)
        &&& self.names.to_multiset() == listed_names(self.file).to_multiset()
    }

    /// The state after adding a storable `name`: a name already listed
    /// changes nothing; a new one is written to the first empty slot (or a
    /// new slot at the end) and goes to the end of the list.
    pub open spec fn added(self, name: Seq<char>) -> IndexState {
        if self.names.contains(name) {
            self
        } else {
            IndexState {
                names: self.names.push(name),
                file: overwrite(self.file, slot_offset(free_slot(self.file)), name_record(name)),
            }
        }
    }

    /// The state after removing `name`: its first entry leaves the list, and
    /// the first slot that holds it is zeroed.
    pub open spec fn removed(self, name: Seq<char>) -> IndexState {
        if !self.names.contains(name) {
            self
        } else {
            let k = slot_of(self.file, name);
            IndexState {
                names: self.names.remove_value(name),
                file: if k < slot_count(self.file) {
                    overwrite(self.file, slot_offset(k), zeros(RECORD_SIZE as int))
                } else {
                    self.file
                },
            }
        }
    }
}

/// Whether a file with these contents can be opened: an unrecognised header
/// is replaced, and a recognised file must be readable.
pub open spec fn opens(contents: Seq<u8>) -> bool {
    !header_valid(contents) || records_decodable(contents)
}

/// The state of an index opened on a file with these contents.
pub open spec fn opened(contents: Seq<u8>) -> IndexState {
    if header_valid(contents) {
        IndexState { names: listed_names(contents), file: contents }
    } else {
        IndexState { names: seq![], file: fresh_header() }
    }
}

/// The outcome of the checks that `add` makes on a name, in their order.
pub open spec fn name_check(name: Seq<char>) -> Result<(), IndexError> {
    if name.len() == 0 {
        Err(IndexError::EmptyName)
    } else if encode_utf8(name).len() > RECORD_SIZE {
        Err(IndexError::NameTooLong)
    } else if encode_utf8(name).contains(0u8) {
        Err(IndexError::NulInName)
    } else {
        Ok(())
    }
}

/// Relies on `std::str::from_utf8`: it accepts exactly the byte slices that
/// are valid UTF-8, and the text it returns is made of those same bytes.
#[verifier::external_body]
fn utf8_text(b: &[u8]) -> (r: Option<&str>)
    ensures
        r is Some <==> valid_utf8(b@),
        r is Some ==> encode_utf8(r->0@) == b@,
{
    std::str::from_utf8(b).ok()
}

/// Adding a storable name keeps a consistent state consistent.
pub proof fn lemma_added_consistent(s: IndexState, x: Seq<char>)
    requires
        s.consistent(),
        valid_name(x),
    ensures
        s.added(x).consistent(),
{
    if !s.names.contains(x) {
        let f = s.file;
        let n = slot_count(f);
        let k = free_slot(f);
        let g = s.added(x).file;
        lemma_free_slot(f);
        lemma_name_record(x);
        lemma_write_slot(f, k, name_record(x));
        assert forall|i: int| 0 <= i < slot_count(g) implies #[trigger] slot_decodable(g, i) by {
            if i != k {
                assert(slot_decodable(f, i));
            }
        }
        assert(slot_name(g, k) == x);
        if k < n {
            lemma_names_fill(f, g, k, n);
        } else {
            lemma_names_agree(f, g, n);
        }
        assert(listed_names(g).to_multiset() == listed_names(f).to_multiset().insert(x));
    }
}

/// Removing a name keeps a consistent state consistent; a listed name is
/// found in a slot, and one of its entries leaves the list.
pub proof fn lemma_removed_consistent(s: IndexState, x: Seq<char>)
    requires
        s.consistent(),
    ensures
        s.removed(x).consistent(),
        s.names.contains(x) ==> slot_of(s.file, x) < slot_count(s.file),
        s.removed(x).names.to_multiset() == s.names.to_multiset().remove(x),
{
    if s.names.contains(x) {
        let f = s.file;
        let n = slot_count(f);
        let k = slot_of(f, x);
        lemma_slot_of(f, x);
        assert(s.names.to_multiset().count(x) > 0);
        assert(listed_names(f).contains(x));
        lemma_names_in_contains(f, n, x);
        if k == n {
            let j = choose|j: int| 0 <= j < n && occupied(f, j) && slot_name(f, j) == x;
            assert(slot_name(f, j) == x);
        }
        let g = s.removed(x).file;
        lemma_zeros_blank();
        lemma_write_slot(f, k, zeros(RECORD_SIZE as int));
        assert forall|i: int| 0 <= i < slot_count(g) implies #[trigger] slot_decodable(g, i) by {
            if i != k {
                assert(slot_decodable(f, i));
            }
        }
        lemma_names_fill(g, f, k, n);
        assert(listed_names(g).to_multiset() =~= listed_names(f).to_multiset().remove(x));
        s.names.index_of_first_ensures(x);
    } else {
        assert(s.names.to_multiset().remove(x) =~= s.names.to_multiset());
    }
}

/// A registry of vault names backed by an index file.
///
/// The index holds the bytes that the file should contain and the edits
/// that bring the file there; the owner of the file performs the edits, in
/// order, after each operation.
pub struct VaultIndex {
    vaults: Vec<String>,
    image: Vec<u8>,
    edits: Vec<FileEdit>,
}

impl View for VaultIndex {
    type V = IndexState;

    closed spec fn view(&self) -> IndexState {
        IndexState { names: texts(self.vaults@), file: self.image@ }
    }
}

impl VaultIndex {
    /// The edits recorded and not yet taken.
    pub closed spec fn pending(&self) -> Seq<FileEdit> {
        self.edits@
    }

    /// The index is consistent with its file, and every recorded edit can be
    /// applied in memory.
    pub open spec fn wf(&self) -> bool {
        &&& self@.consistent()
        &&& forall|i: int| 0 <= i < self.pending().len() ==> #[trigger] self.pending()[i].addressable()
    }

    /// Byte offset of slot `slot` in the file.
    pub fn calculate_offset_for_slot(slot: u64) -> (r: u64)
        requires
            slot_offset(slot as int) <= u64::MAX,
        ensures
            r == slot_offset(slot as int),
    {
        (HEADER_SIZE as u64) + slot * (RECORD_SIZE as u64)
    }

    /// Opens an index on a file with the given contents.
    ///
    /// A file without a recognised header (empty, too short, another magic
    /// tag or another version) is reinitialised: the index starts empty and
    /// records a rewrite of the file to a fresh header. Otherwise every
    /// whole slot is read in order; empty slots are skipped, a trailing
    /// piece shorter than a slot is ignored, and a slot whose name is not
    /// UTF-8 fails the open.
    pub fn open(contents: Vec<u8>) -> (r: Result<VaultIndex, IndexError>)
        ensures
            match r {
                Ok(ix) => {
                    &&& opens(contents@)
                    &&& ix.wf()
                    &&& ix@ == opened(contents@)
                    &&& header_valid(contents@) ==> ix.pending() == Seq::<FileEdit>::empty()
                    &&& !header_valid(contents@) ==> ix.pending().len() == 1
                        && ix.pending()[0].is_rewrite(fresh_header())
                        && ix.pending()[0].applied_to(contents@) == ix@.file
                },
                Err(e) => !opens(contents@) && e == IndexError::InvalidData,
            },
    {
        let ghost c = contents@;
        let mut image = contents;
        let mut edits: Vec<FileEdit> = Vec::new();
        if !check_header(image.as_slice()) {
            let edit = FileEdit::Rewrite(header_bytes());
            edit.apply(&mut image);
            edits.push(edit);
            proof {
                lemma_fresh_header_valid();
            }
        }
        let n: usize = (image.len() - HEADER_SIZE) / RECORD_SIZE;
        assert(HEADER_SIZE + n * RECORD_SIZE <= image@.len());
        assert(!header_valid(c) ==> n == 0);
        let mut vaults: Vec<String> = Vec::new();
        let mut i: usize = 0;
        while i < n
            invariant
                c == contents@,
                image@ == opened(c).file,
                header_valid(image@),
                n == slot_count(image@),
                HEADER_SIZE + n * RECORD_SIZE <= image.len(),
                !header_valid(c) ==> n == 0,
                i <= n,
                texts(vaults@) == names_in(image@, i as int),
                forall|j: int| 0 <= j < i ==> #[trigger] slot_decodable(image@, j),
            decreases n - i,
        {
            let start: usize = HEADER_SIZE + i * RECORD_SIZE;
            let ghost rec = record(image@, i as int);
            if !record_is_blank(image.as_slice(), start) {
                let end = record_name_end(image.as_slice(), start);
                let raw = vstd::slice::slice_subrange(image.as_slice(), start, start + end);
                assert(raw@ =~= name_bytes(rec));
                match utf8_text(raw) {
                    Some(text) => {
                        let name: String = text.to_owned();
                        proof {
                            encode_utf8_decode_utf8(text@);
                            assert(texts(vaults@.push(name)) =~= texts(vaults@).push(name@));
                        }
                        vaults.push(name);
                    },
                    None => {
                        assert(!slot_decodable(image@, i as int));
                        return Err(IndexError::InvalidData);
                    },
                }
            }
            i = i + 1;
        }
        let ix = VaultIndex { vaults, image, edits };
        assert(ix@ =~= opened(c));
        Ok(ix)
    }

    /// The names, in list order.
    pub fn vaults(&self) -> (r: &[String])
        ensures
            texts(r@) == self@.names,
    {
        self.vaults.as_slice()
    }

    /// The bytes that the file holds once every recorded edit is made.
    pub fn contents(&self) -> (r: &[u8])
        ensures
            r@ == self@.file,
    {
        self.image.as_slice()
    }

    /// Where `name` first stands in the list.
    fn position_of(&self, name: &String) -> (r: Option<usize>)
        ensures
            match r {
                Some(i) => {
                    &&& self@.names.contains(name@)
                    &&& self@.names.index_of_first(name@) == Some(i as int)
                },
                None => !self@.names.contains(name@),
            },
    {
        let ghost names = self@.names;
        let mut i: usize = 0;
        while i < self.vaults.len()
            invariant
                names == self@.names,
                names.len() == self.vaults@.len(),
                i <= names.len(),
                forall|j: int| 0 <= j < i ==> names[j] != name@,
            decreases self.vaults@.len() - i,
        {
            if self.vaults[i] == *name {
                proof {
                    assert(names[i as int] == name@);
                    assert(names.contains(name@));
                    names.index_of_first_ensures(name@);
                    let f = names.index_of_first(name@)->0;
                    if f < i {
                        assert(names[f] != name@);
                    } else if f > i {
                        assert(names[i as int] == name@);
                    }
                }
                return Some(i);
            }
            i = i + 1;
        }
        None
    }

    /// The first empty slot of the file, or the slot count when none is.
    fn first_free_slot(&self) -> (k: usize)
        requires
            header_valid(self.image@),
        ensures
            k == free_slot(self.image@),
    {
        let ghost f = self.image@;
        let n: usize = (self.image.len() - HEADER_SIZE) / RECORD_SIZE;
        assert(HEADER_SIZE + n * RECORD_SIZE <= f.len());
        proof {
            lemma_free_slot(f);
        }
        let mut i: usize = 0;
        while i < n
            invariant
                f == self.image@,
                n == slot_count(f),
                HEADER_SIZE + n * RECORD_SIZE <= self.image.len(),
                i <= n,
                i <= free_slot(f),
                0 <= free_slot(f) <= n,
                forall|j: int| 0 <= j < free_slot(f) ==> #[trigger] occupied(f, j),
                free_slot(f) < n ==> !occupied(f, free_slot(f)),
            decreases n - i,
        {
            if record_is_blank(self.image.as_slice(), HEADER_SIZE + i * RECORD_SIZE) {
                proof {
                    if (i as int) < free_slot(f) {
                        assert(occupied(f, i as int));
                    }
                }
                return i;
            }
            i = i + 1;
        }
        n
    }

    /// The first slot whose name has the bytes `name`, or the slot count
    /// when none has.
    fn slot_holding(&self, name: &[u8]) -> (k: usize)
        requires
            header_valid(self.image@),
        ensures
            k <= slot_count(self.image@),
            forall|j: int|
                0 <= j < k ==> !(occupied(self.image@, j) && #[trigger] name_bytes(
                    record(self.image@, j),
                ) == name@),
            k < slot_count(self.image@) ==> occupied(self.image@, k as int) && name_bytes(
                record(self.image@, k as int),
            ) == name@,
    {
        let ghost f = self.image@;
        let n: usize = (self.image.len() - HEADER_SIZE) / RECORD_SIZE;
        assert(HEADER_SIZE + n * RECORD_SIZE <= f.len());
        let mut i: usize = 0;
        while i < n
            invariant
                f == self.image@,
                n == slot_count(f),
                HEADER_SIZE + n * RECORD_SIZE <= self.image.len(),
                i <= n,
                forall|j: int|
                    0 <= j < i ==> !(occupied(f, j) && #[trigger] name_bytes(record(f, j))
                        == name@),
            decreases n - i,
        {
            let start: usize = HEADER_SIZE + i * RECORD_SIZE;
            if !record_is_blank(self.image.as_slice(), start) && record_holds(
                self.image.as_slice(),
                start,
                name,
            ) {
                return i;
            }
            i = i + 1;
        }
        n
    }

    /// Adds a vault name.
    ///
    /// The name is checked first: it must not be empty, its UTF-8 form must
    /// fit a slot, and it must not hold a zero byte. A name that is already
    /// listed changes nothing. A new name is written to the first empty slot,
    /// or to a new slot at the end, and goes to the end of the list.
    pub fn add(&mut self, name: &str) -> (r: Result<(), IndexError>)
        requires
            old(self).wf(),
            old(self)@.file.len() + RECORD_SIZE <= usize::MAX,
        ensures
            final(self).wf(),
            r == name_check(name@),
            r is Err ==> final(self)@ == old(self)@ && final(self).pending() == old(self).pending(),
            r is Ok ==> final(self)@ == old(self)@.added(name@),
            r is Ok && old(self)@.names.contains(name@) ==> final(self).pending() == old(
                self,
            ).pending(),
            r is Ok && !old(self)@.names.contains(name@) ==> final(self).pending() == old(
                self,
            ).pending().push(final(self).pending().last()) && final(self).pending().last().is_patch(
                slot_offset(free_slot(old(self)@.file)),
                name_record(name@),
            ),
            r is Ok && !old(self)@.names.contains(name@) ==> final(self).pending().last().applied_to(
                old(self)@.file,
            ) == final(self)@.file,
    {
        if name.is_empty() {
            return Err(IndexError::EmptyName);
        }
        let bytes = name.as_bytes();
        if bytes.len() > RECORD_SIZE {
            return Err(IndexError::NameTooLong);
        }
        let mut j: usize = 0;
        while j < bytes.len()
            invariant
                *self == *old(self),
                self.wf(),
                name@.len() > 0,
                bytes@.len() <= RECORD_SIZE,
                bytes@ == encode_utf8(name@),
                j <= bytes@.len(),
                forall|t: int| 0 <= t < j ==> bytes@[t] != 0,
            decreases bytes@.len() - j,
        {
            if bytes[j] == 0 {
                assert(bytes@.contains(0u8));
                return Err(IndexError::NulInName);
            }
            j = j + 1;
        }
        assert(valid_name(name@));
        let owned: String = name.to_owned();
        if self.position_of(&owned).is_some() {
            return Ok(());
        }
        let ghost f = self.image@;
        let ghost names = self@.names;
        let k = self.first_free_slot();
        let n: usize = (self.image.len() - HEADER_SIZE) / RECORD_SIZE;
        assert(HEADER_SIZE + n * RECORD_SIZE <= f.len());
        proof {
            lemma_free_slot(f);
        }
        let offset = Self::calculate_offset_for_slot(k as u64);
        let edit = FileEdit::Patch { offset, bytes: padded_record(bytes) };
        edit.apply(&mut self.image);
        self.edits.push(edit);
        self.vaults.push(owned);
        proof {
            let x = name@;
            lemma_added_consistent(old(self)@, x);
            assert(self@.names =~= names.push(x));
            assert(self@ == old(self)@.added(x));
            assert(self.pending() == old(self).pending().push(self.pending().last()));
            assert(self.pending().last().addressable());
        }
        Ok(())
    }

    /// Removes a vault name, and returns whether it was listed.
    ///
    /// The first entry of the name leaves the list, and the first slot that
    /// holds it is zeroed; the slot stays in the file for a later name.
    pub fn remove(&mut self, name: &str) -> (r: bool)
        requires
            old(self).wf(),
        ensures
            final(self).wf(),
            r == old(self)@.names.contains(name@),
            final(self)@ == old(self)@.removed(name@),
            !r ==> final(self).pending() == old(self).pending(),
            r ==> slot_of(old(self)@.file, name@) < slot_count(old(self)@.file),
            r ==> final(self)@.names.len() == old(self)@.names.len() - 1,
            r ==> final(self).pending() == old(self).pending().push(final(self).pending().last())
                && final(self).pending().last().is_patch(
                slot_offset(slot_of(old(self)@.file, name@)),
                zeros(RECORD_SIZE as int),
            ),
            r ==> final(self).pending().last().applied_to(old(self)@.file) == final(self)@.file,
    {
        let owned: String = name.to_owned();
        let pos = match self.position_of(&owned) {
            Some(pos) => pos,
            None => {
                return false;
            },
        };
        let ghost f = self.image@;
        let ghost names = self@.names;
        let ghost x = name@;
        let k = self.slot_holding(name.as_bytes());
        let n: usize = (self.image.len() - HEADER_SIZE) / RECORD_SIZE;
        assert(HEADER_SIZE + n * RECORD_SIZE <= f.len());
        proof {
            broadcast use encode_utf8_decode_utf8, decode_utf8_encode_utf8;

            lemma_slot_of(f, x);
            let c = slot_of(f, x);
            if c < k {
                assert(slot_decodable(f, c));
                assert(name_bytes(record(f, c)) == encode_utf8(x));
            } else if k < c {
                assert(slot_decodable(f, k as int));
                assert(slot_name(f, k as int) == x);
            }
            lemma_removed_consistent(old(self)@, x);
            names.index_of_first_ensures(x);
            assert(k == c);
        }
        self.vaults.remove(pos);
        let offset = Self::calculate_offset_for_slot(k as u64);
        let edit = FileEdit::Patch { offset, bytes: padded_record(&[]) };
        edit.apply(&mut self.image);
        self.edits.push(edit);
        proof {
            assert(self@.names =~= names.remove(pos as int));
            assert(self@ == old(self)@.removed(x));
            assert(self.pending() == old(self).pending().push(self.pending().last()));
            assert(self.pending().last().addressable());
        }
        true
    }

    /// Hands over the recorded edits, oldest first, and forgets them.
    pub fn take_edits(&mut self) -> (r: Vec<FileEdit>)
        requires
            old(self).wf(),
        ensures
            final(self).wf(),
            r@ == old(self).pending(),
            final(self).pending() == Seq::<FileEdit>::empty(),
            final(self)@ == old(self)@,
    {
        let mut out: Vec<FileEdit> = Vec::new();
        std::mem::swap(&mut out, &mut self.edits);
        out
    }
}

} // verus!
