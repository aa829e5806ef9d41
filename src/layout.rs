//! The on-disk layout of the index file: header, slots and name records.

use vstd::prelude::*;
use vstd::multiset::*;
use vstd::seq_lib::*;
use vstd::utf8::*;

verus! {

/// Width of one slot, in bytes.
pub const RECORD_SIZE: usize = 16;

/// Width of the magic tag that opens the file.
pub const MAGIC_SIZE: usize = 8;

/// Width of the header: the magic tag and a 4-byte version.
pub const HEADER_SIZE: usize = 12;

/// The format version that this library reads and writes.
pub const VERSION: u32 = 1;

/// The magic tag, `VUOTOIDX` in ASCII.
pub open spec fn magic() -> Seq<u8> {
    seq![0x56u8, 0x55u8, 0x4fu8, 0x54u8, 0x4fu8, 0x49u8, 0x44u8, 0x58u8]
}

/// The unsigned integer that four bytes hold in little-endian order.
pub open spec fn le_u32(b: Seq<u8>) -> int {
    b[0] + 256 * b[1] + 65536 * b[2] + 16777216 * b[3]
}

/// The four little-endian bytes of `v`.
pub open spec fn le_bytes(v: u32) -> Seq<u8> {
    seq![
        (v % 256) as u8,
        ((v / 256) % 256) as u8,
        ((v / 65536) % 256) as u8,
        ((v / 16777216) % 256) as u8,
    ]
}

/// The header that a freshly initialised file carries.
pub open spec fn fresh_header() -> Seq<u8> {
    magic() + le_bytes(VERSION)
}

/// A file is recognised when it starts with the magic tag followed by the
/// current version.
pub open spec fn header_valid(f: Seq<u8>) -> bool {
    &&& f.len() >= HEADER_SIZE
    &&& f.take(MAGIC_SIZE as int) == magic()
    &&& le_u32(f.subrange(MAGIC_SIZE as int, HEADER_SIZE as int)) == VERSION
}

/// The fresh header is recognised.
pub proof fn lemma_fresh_header_valid()
    ensures
        header_valid(fresh_header()),
        fresh_header().len() == HEADER_SIZE,
{
    assert(fresh_header().take(MAGIC_SIZE as int) =~= magic());
    assert(fresh_header().subrange(MAGIC_SIZE as int, HEADER_SIZE as int) =~= le_bytes(VERSION));
}

/// The bytes of a fresh header.
pub fn header_bytes() -> (r: Vec<u8>)
    ensures
        r@ == fresh_header(),
{
    let mut r: Vec<u8> = vec![0x56u8, 0x55u8, 0x4fu8, 0x54u8, 0x4fu8, 0x49u8, 0x44u8, 0x58u8];
    r.push((VERSION % 256) as u8);
    r.push(((VERSION / 256) % 256) as u8);
    r.push(((VERSION / 65536) % 256) as u8);
    r.push(((VERSION / 16777216) % 256) as u8);
    assert(r@ =~= fresh_header());
    r
}

/// Whether `contents` starts with a recognised header.
pub fn check_header(contents: &[u8]) -> (r: bool)
    ensures
        r == header_valid(contents@),
{
    if contents.len() < HEADER_SIZE {
        return false;
    }
    let expected = header_bytes();
    let mut i: usize = 0;
    while i < MAGIC_SIZE
        invariant
            i <= MAGIC_SIZE,
            contents@.len() >= HEADER_SIZE,
            expected@ == fresh_header(),
            forall|j: int| 0 <= j < i ==> contents@[j] == magic()[j],
        decreases MAGIC_SIZE - i,
    {
        if contents[i] != expected[i] {
            assert(contents@.take(MAGIC_SIZE as int)[i as int] != magic()[i as int]);
            return false;
        }
        i = i + 1;
    }
    assert(contents@.take(MAGIC_SIZE as int) =~= magic());
    let version: u32 = contents[8] as u32 + (contents[9] as u32) * 256 + (contents[10] as u32)
        * 65536 + (contents[11] as u32) * 16777216;
    version == VERSION
}

/// Whether `k` is the least index below `n` at which `p` holds, or `n` when
/// `p` holds nowhere below `n`.
pub open spec fn is_first_index(n: int, p: spec_fn(int) -> bool, k: int) -> bool {
    &&& 0 <= k <= n
    &&& forall|j: int| 0 <= j < k ==> !#[trigger] p(j)
    &&& k < n ==> p(k)
}

/// The least index below `n` at which `p` holds, or `n` when there is none.
pub open spec fn first_index(n: int, p: spec_fn(int) -> bool) -> int {
    choose|k: int| is_first_index(n, p, k)
}

/// An index with the property of `is_first_index` is the one that
/// `first_index` picks.
pub proof fn lemma_first_index(n: int, p: spec_fn(int) -> bool, k: int)
    requires
        is_first_index(n, p, k),
    ensures
        first_index(n, p) == k,
{
    let c = first_index(n, p);
    assert(is_first_index(n, p, c));
    if c < k {
        assert(!p(c));
    } else if c > k {
        assert(!p(k));
    }
}

/// Some index has the property of `is_first_index`.
pub proof fn lemma_first_index_exists(n: int, p: spec_fn(int) -> bool)
    requires
        n >= 0,
    ensures
        is_first_index(n, p, first_index(n, p)),
    decreases n,
{
    if n == 0 {
        assert(is_first_index(n, p, 0));
    } else {
        lemma_first_index_exists(n - 1, p);
        let k = first_index(n - 1, p);
        if k < n - 1 {
            assert(is_first_index(n, p, k));
        } else if p(n - 1) {
            assert(is_first_index(n, p, n - 1));
        } else {
            assert(is_first_index(n, p, n));
        }
    }
}

/// Byte offset of slot `i`.
pub open spec fn slot_offset(i: int) -> int {
    HEADER_SIZE + i * RECORD_SIZE
}

/// The number of whole slots in `f`; a shorter tail is not a slot.
pub open spec fn slot_count(f: Seq<u8>) -> int {
    if f.len() < HEADER_SIZE {
        0
    } else {
        (f.len() - HEADER_SIZE) / (RECORD_SIZE as int)
    }
}

/// The bytes of slot `i`.
pub open spec fn record(f: Seq<u8>, i: int) -> Seq<u8> {
    f.subrange(slot_offset(i), slot_offset(i) + RECORD_SIZE)
}

/// A record of zeros only marks an empty slot.
pub open spec fn is_blank(r: Seq<u8>) -> bool {
    forall|j: int| 0 <= j < r.len() ==> r[j] == 0
}

/// Where the name in a record ends: its first zero byte, or the record's end.
pub open spec fn name_end(r: Seq<u8>) -> int {
    first_index(r.len() as int, |j: int| r[j] == 0)
}

/// The bytes of the name that a record holds.
pub open spec fn name_bytes(r: Seq<u8>) -> Seq<u8> {
    r.take(name_end(r))
}

/// Whether slot `i` of `f` holds a name.
pub open spec fn occupied(f: Seq<u8>, i: int) -> bool {
    !is_blank(record(f, i))
}

/// The name in slot `i` of `f`, read as UTF-8.
pub open spec fn slot_name(f: Seq<u8>, i: int) -> Seq<char> {
    decode_utf8(name_bytes(record(f, i)))
}

/// Slot `i` is empty, or holds a name that is valid UTF-8.
pub open spec fn slot_decodable(f: Seq<u8>, i: int) -> bool {
    occupied(f, i) ==> valid_utf8(name_bytes(record(f, i)))
}

/// Every slot of `f` is empty or holds valid UTF-8.
pub open spec fn records_decodable(f: Seq<u8>) -> bool {
    forall|i: int| 0 <= i < slot_count(f) ==> #[trigger] slot_decodable(f, i)
}

/// The names in the first `n` slots of `f`, in slot order, empty slots
/// skipped.
pub open spec fn names_in(f: Seq<u8>, n: int) -> Seq<Seq<char>>
    decreases n,
{
    if n <= 0 {
        seq![]
    } else if occupied(f, n - 1) {
        names_in(f, n - 1).push(slot_name(f, n - 1))
    } else {
        names_in(f, n - 1)
    }
}

/// The names that a scan of `f` finds.
pub open spec fn listed_names(f: Seq<u8>) -> Seq<Seq<char>> {
    names_in(f, slot_count(f))
}

/// The slot that a new name goes to: the first empty one, or a new slot at
/// the end.
pub open spec fn free_slot(f: Seq<u8>) -> int {
    first_index(slot_count(f), |i: int| !occupied(f, i))
}

/// The first slot that holds `name`, or the slot count when none does.
pub open spec fn slot_of(f: Seq<u8>, name: Seq<char>) -> int {
    first_index(slot_count(f), |i: int| occupied(f, i) && slot_name(f, i) == name)
}

/// The free slot is the first empty one, or the slot count when none is.
pub proof fn lemma_free_slot(f: Seq<u8>)
    ensures
        0 <= free_slot(f) <= slot_count(f),
        forall|j: int| 0 <= j < free_slot(f) ==> #[trigger] occupied(f, j),
        free_slot(f) < slot_count(f) ==> !occupied(f, free_slot(f)),
{
    let p = |i: int| !occupied(f, i);
    lemma_first_index_exists(slot_count(f), p);
    assert forall|j: int| 0 <= j < free_slot(f) implies #[trigger] occupied(f, j) by {
        assert(!p(j));
    }
}

/// `slot_of` is the first slot that holds the name, or the slot count when
/// none does.
pub proof fn lemma_slot_of(f: Seq<u8>, name: Seq<char>)
    ensures
        0 <= slot_of(f, name) <= slot_count(f),
        forall|j: int|
            0 <= j < slot_of(f, name) ==> !(occupied(f, j) && #[trigger] slot_name(f, j) == name),
        slot_of(f, name) < slot_count(f) ==> occupied(f, slot_of(f, name)) && slot_name(
            f,
            slot_of(f, name),
        ) == name,
{
    let p = |i: int| occupied(f, i) && slot_name(f, i) == name;
    lemma_first_index_exists(slot_count(f), p);
    assert forall|j: int| 0 <= j < slot_of(f, name) implies !(occupied(f, j) && #[trigger] slot_name(
        f,
        j,
    ) == name) by {
        assert(!p(j));
    }
}

/// `n` zero bytes.
pub open spec fn zeros(n: int) -> Seq<u8> {
    Seq::new(n as nat, |j: int| 0u8)
}

/// The record that stores `name`: its UTF-8 bytes padded with zeros.
pub open spec fn name_record(name: Seq<char>) -> Seq<u8> {
    encode_utf8(name) + zeros(RECORD_SIZE - encode_utf8(name).len())
}

/// A name can be stored: it is not empty, its UTF-8 form fits a slot, and
/// it holds no zero byte (which marks the end of a name).
pub open spec fn valid_name(name: Seq<char>) -> bool {
    &&& name.len() > 0
    &&& encode_utf8(name).len() <= RECORD_SIZE
    &&& !encode_utf8(name).contains(0u8)
}

/// `f` after writing `b` at offset `off`; a write past the end extends the
/// file, and a gap before it reads as zeros.
pub open spec fn overwrite(f: Seq<u8>, off: int, b: Seq<u8>) -> Seq<u8> {
    let end = off + b.len();
    let len = if end > f.len() {
        end
    } else {
        f.len() as int
    };
    Seq::new(
        len as nat,
        |i: int|
            if off <= i < end {
                b[i - off]
            } else if i < f.len() {
                f[i]
            } else {
                0u8
            },
    )
}

/// Whether the record at `start` is empty.
pub(crate) fn record_is_blank(f: &[u8], start: usize) -> (r: bool)
    requires
        start + RECORD_SIZE <= f.len(),
    ensures
        r == is_blank(f@.subrange(start as int, start + RECORD_SIZE)),
{
    let ghost rec = f@.subrange(start as int, start + RECORD_SIZE);
    let mut j: usize = 0;
    while j < RECORD_SIZE
        invariant
            j <= RECORD_SIZE,
            start + RECORD_SIZE <= f.len(),
            rec == f@.subrange(start as int, start + RECORD_SIZE),
            forall|t: int| 0 <= t < j ==> rec[t] == 0,
        decreases RECORD_SIZE - j,
    {
        if f[start + j] != 0 {
            assert(rec[j as int] != 0);
            return false;
        }
        j = j + 1;
    }
    true
}

/// Where the name in the record at `start` ends.
pub(crate) fn record_name_end(f: &[u8], start: usize) -> (r: usize)
    requires
        start + RECORD_SIZE <= f.len(),
    ensures
        r as int == name_end(f@.subrange(start as int, start + RECORD_SIZE)),
        r <= RECORD_SIZE,
{
    let ghost rec = f@.subrange(start as int, start + RECORD_SIZE);
    let ghost p = |j: int| rec[j] == 0;
    let mut j: usize = 0;
    while j < RECORD_SIZE && f[start + j] != 0
        invariant
            j <= RECORD_SIZE,
            start + RECORD_SIZE <= f.len(),
            rec == f@.subrange(start as int, start + RECORD_SIZE),
            forall|t: int| 0 <= t < j ==> rec[t] != 0,
        decreases RECORD_SIZE - j,
    {
        j = j + 1;
    }
    proof {
        assert(is_first_index(RECORD_SIZE as int, |t: int| rec[t] == 0, j as int));
        lemma_first_index(RECORD_SIZE as int, |t: int| rec[t] == 0, j as int);
    }
    j
}

/// Whether the record at `start` holds exactly the name `name`.
pub(crate) fn record_holds(f: &[u8], start: usize, name: &[u8]) -> (r: bool)
    requires
        start + RECORD_SIZE <= f.len(),
    ensures
        r == (name_bytes(f@.subrange(start as int, start + RECORD_SIZE)) == name@),
{
    let ghost rec = f@.subrange(start as int, start + RECORD_SIZE);
    let end = record_name_end(f, start);
    if end != name.len() {
        return false;
    }
    let mut j: usize = 0;
    while j < end
        invariant
            j <= end <= RECORD_SIZE,
            end == name@.len(),
            end == name_end(rec),
            start + RECORD_SIZE <= f.len(),
            rec == f@.subrange(start as int, start + RECORD_SIZE),
            forall|t: int| 0 <= t < j ==> rec[t] == name@[t],
        decreases end - j,
    {
        if f[start + j] != name[j] {
            assert(name_bytes(rec)[j as int] != name@[j as int]);
            return false;
        }
        j = j + 1;
    }
    assert(name_bytes(rec) =~= name@);
    true
}

/// The record that stores the name whose bytes are `name`.
pub(crate) fn padded_record(name: &[u8]) -> (r: Vec<u8>)
    requires
        name@.len() <= RECORD_SIZE,
    ensures
        r@ == name@ + zeros(RECORD_SIZE - name@.len()),
{
    let mut r: Vec<u8> = Vec::new();
    let mut j: usize = 0;
    while j < RECORD_SIZE
        invariant
            j <= RECORD_SIZE,
            name@.len() <= RECORD_SIZE,
            r@.len() == j,
            forall|t: int| 0 <= t < j ==> r@[t] == if t < name@.len() { name@[t] } else { 0u8 },
        decreases RECORD_SIZE - j,
    {
        if j < name.len() {
            r.push(name[j]);
        } else {
            r.push(0u8);
        }
        j = j + 1;
    }
    assert(r@ =~= name@ + zeros(RECORD_SIZE - name@.len()));
    r
}

/// The UTF-8 form of a non-empty sequence of characters is not empty.
pub proof fn lemma_encode_nonempty(s: Seq<char>)
    requires
        s.len() > 0,
    ensures
        encode_utf8(s).len() > 0,
{
    assert(encode_scalar(s[0] as u32).len() > 0);
}

/// What the record of a storable name holds.
pub proof fn lemma_name_record(name: Seq<char>)
    requires
        valid_name(name),
    ensures
        name_record(name).len() == RECORD_SIZE,
        !is_blank(name_record(name)),
        name_bytes(name_record(name)) == encode_utf8(name),
        valid_utf8(name_bytes(name_record(name))),
        decode_utf8(name_bytes(name_record(name))) == name,
{
    broadcast use encode_utf8_valid_utf8, encode_utf8_decode_utf8;

    let b = encode_utf8(name);
    let r = name_record(name);
    lemma_encode_nonempty(name);
    assert forall|j: int| 0 <= j < b.len() implies r[j] != 0 by {
        if r[j] == 0 {
            assert(b[j] == 0);
            assert(b.contains(0u8));
        }
    }
    assert(r[0] != 0);
    assert(is_first_index(r.len() as int, |j: int| r[j] == 0, b.len() as int));
    lemma_first_index(r.len() as int, |j: int| r[j] == 0, b.len() as int);
    assert(name_bytes(r) =~= b);
}

/// The all-zero record marks an empty slot.
pub proof fn lemma_zeros_blank()
    ensures
        is_blank(zeros(RECORD_SIZE as int)),
        zeros(RECORD_SIZE as int).len() == RECORD_SIZE,
{
}

/// Writing a whole record into slot `k` (an existing slot, or the first one
/// past the last) changes that slot only.
pub proof fn lemma_write_slot(f: Seq<u8>, k: int, r: Seq<u8>)
    requires
        f.len() >= HEADER_SIZE,
        0 <= k <= slot_count(f),
        r.len() == RECORD_SIZE,
    ensures
        ({
            let g = overwrite(f, slot_offset(k), r);
            &&& g.len() >= HEADER_SIZE
            &&& header_valid(g) == header_valid(f)
            &&& slot_count(g) == if k < slot_count(f) {
                slot_count(f)
            } else {
                slot_count(f) + 1
            }
            &&& record(g, k) == r
            &&& forall|j: int|
                0 <= j < slot_count(f) && j != k ==> #[trigger] record(g, j) == record(f, j)
        }),
{
    let g = overwrite(f, slot_offset(k), r);
    let n = slot_count(f);
    assert(HEADER_SIZE + n * 16 <= f.len() < HEADER_SIZE + n * 16 + 16);
    assert(g.take(MAGIC_SIZE as int) =~= f.take(MAGIC_SIZE as int));
    assert(g.subrange(MAGIC_SIZE as int, HEADER_SIZE as int) =~= f.subrange(
        MAGIC_SIZE as int,
        HEADER_SIZE as int,
    ));
    assert(record(g, k) =~= r);
    assert forall|j: int| 0 <= j < n && j != k implies #[trigger] record(g, j) == record(f, j) by {
        assert(record(g, j) =~= record(f, j));
    }
}

/// Names of files whose first `n` slots agree are the same.
pub proof fn lemma_names_agree(f: Seq<u8>, g: Seq<u8>, n: int)
    requires
        forall|j: int| 0 <= j < n ==> #[trigger] record(g, j) == record(f, j),
    ensures
        names_in(g, n) == names_in(f, n),
    decreases n,
{
    if n > 0 {
        lemma_names_agree(f, g, n - 1);
        assert(record(g, n - 1) == record(f, n - 1));
    }
}

/// Filling empty slot `k` adds its name to the names found.
pub proof fn lemma_names_fill(f: Seq<u8>, g: Seq<u8>, k: int, n: int)
    requires
        0 <= k < n,
        forall|j: int| 0 <= j < n && j != k ==> #[trigger] record(g, j) == record(f, j),
        !occupied(f, k),
        occupied(g, k),
    ensures
        names_in(g, n).to_multiset() == names_in(f, n).to_multiset().insert(slot_name(g, k)),
    decreases n,
{
    broadcast use to_multiset_build, group_multiset_axioms;

    if n == k + 1 {
        lemma_names_agree(f, g, k);
    } else {
        lemma_names_fill(f, g, k, n - 1);
        assert(record(g, n - 1) == record(f, n - 1));
        if occupied(f, n - 1) {
            let y = slot_name(f, n - 1);
            assert(names_in(g, n).to_multiset() =~= names_in(f, n).to_multiset().insert(
                slot_name(g, k),
            ));
        }
    }
}

/// A name found by the scan sits in some occupied slot.
pub proof fn lemma_names_in_contains(f: Seq<u8>, n: int, x: Seq<char>)
    requires
        names_in(f, n).contains(x),
    ensures
        exists|j: int| 0 <= j < n && occupied(f, j) && slot_name(f, j) == x,
    decreases n,
{
    if n > 0 {
        if occupied(f, n - 1) && slot_name(f, n - 1) == x {
        } else {
            if occupied(f, n - 1) {
                let i = choose|i: int| 0 <= i < names_in(f, n).len() && names_in(f, n)[i] == x;
                assert(i < names_in(f, n - 1).len());
                assert(names_in(f, n - 1)[i] == x);
            }
            lemma_names_in_contains(f, n - 1, x);
        }
    }
}

/// A change to the index file.
#[derive(Debug)]
pub enum FileEdit {
    /// Empty the file, then write these bytes from its start.
    Rewrite(Vec<u8>),
    /// Write `bytes` from `offset` on, leaving every other byte as it is.
    Patch { offset: u64, bytes: Vec<u8> },
}

impl FileEdit {
    /// The file contents `f` after this edit.
    pub open spec fn applied_to(&self, f: Seq<u8>) -> Seq<u8> {
        match self {
            FileEdit::Rewrite(b) => b@,
            FileEdit::Patch { offset, bytes } => overwrite(f, *offset as int, bytes@),
        }
    }

    /// The edit's last byte can be addressed in memory.
    pub open spec fn addressable(&self) -> bool {
        match self {
            FileEdit::Rewrite(_) => true,
            FileEdit::Patch { offset, bytes } => *offset + bytes@.len() <= usize::MAX,
        }
    }

    /// Whether this edit writes `b` at `off`.
    pub open spec fn is_patch(&self, off: int, b: Seq<u8>) -> bool {
        match self {
            FileEdit::Rewrite(_) => false,
            FileEdit::Patch { offset, bytes } => *offset == off && bytes@ == b,
        }
    }

    /// Whether this edit replaces the whole file by `b`.
    pub open spec fn is_rewrite(&self, b: Seq<u8>) -> bool {
        match self {
            FileEdit::Rewrite(bytes) => bytes@ == b,
            FileEdit::Patch { .. } => false,
        }
    }

    /// Applies this edit to an in-memory copy of the file.
    pub fn apply(&self, file: &mut Vec<u8>)
        requires
            self.addressable(),
        ensures
            final(file)@ == self.applied_to(old(file)@),
    {
        match self {
            FileEdit::Rewrite(b) => {
                *file = vstd::slice::slice_to_vec(b.as_slice());
            },
            FileEdit::Patch { offset, bytes } => {
                let off = *offset as usize;
                let ghost orig = file@;
                let ghost top = if off > orig.len() {
                    off as int
                } else {
                    orig.len() as int
                };
                while file.len() < off
                    invariant
                        orig.len() <= file@.len() <= top,
                        top == if off > orig.len() { off as int } else { orig.len() as int },
                        forall|p: int|
                            0 <= p < file@.len() ==> file@[p] == if p < orig.len() {
                                orig[p]
                            } else {
                                0u8
                            },
                    decreases off - file@.len(),
                {
                    file.push(0u8);
                }
                let mut i: usize = 0;
                while i < bytes.len()
                    invariant
                        off + bytes@.len() <= usize::MAX,
                        i <= bytes@.len(),
                        top == if off > orig.len() { off as int } else { orig.len() as int },
                        file@.len() == if off + i > top { off + i } else { top },
                        forall|p: int|
                            0 <= p < file@.len() ==> file@[p] == if off <= p < off + i {
                                bytes@[p - off]
                            } else if p < orig.len() {
                                orig[p]
                            } else {
                                0u8
                            },
                    decreases bytes@.len() - i,
                {
                    let p = off + i;
                    if p < file.len() {
                        file[p] = bytes[i];
                    } else {
                        file.push(bytes[i]);
                    }
                    i = i + 1;
                }
                assert(file@ =~= overwrite(orig, off as int, bytes@));
            },
        }
    }
}

} // verus!
