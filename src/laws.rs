//! Properties of the index that relate several operations: what a fresh
//! open of the file finds after an edit, and what repeating an operation
//! does.

use crate::index::{lemma_added_consistent, lemma_removed_consistent, opened, opens, IndexState};
use crate::layout::{
    fresh_header, header_valid, le_u32, lemma_fresh_header_valid, lemma_names_agree,
    listed_names, record, records_decodable, slot_count, slot_decodable, valid_name,
    HEADER_SIZE, MAGIC_SIZE, RECORD_SIZE, VERSION,
};
use vstd::multiset::*;
use vstd::prelude::*;
use vstd::seq_lib::*;

verus! {

broadcast use {to_multiset_contains, to_multiset_build, to_multiset_remove, group_multiset_axioms};

/// After a storable name is added, the list holds it, and a fresh open of
/// the resulting file succeeds and lists it as well.
pub proof fn lemma_add_then_reopen(s: IndexState, name: Seq<char>)
    requires
        s.consistent(),
        valid_name(name),
    ensures
        s.added(name).names.contains(name),
        s.added(name).consistent(),
        opens(s.added(name).file),
        opened(s.added(name).file).names.contains(name),
{
    lemma_added_consistent(s, name);
    let t = s.added(name);
    if !s.names.contains(name) {
        assert(t.names[t.names.len() - 1] == name);
    }
    assert(t.names.to_multiset().count(name) > 0);
    assert(listed_names(t.file).to_multiset().count(name) > 0);
}

/// Adding a name a second time changes nothing, so the list keeps its
/// length.
pub proof fn lemma_add_idempotent(s: IndexState, name: Seq<char>)
    ensures
        s.added(name).added(name) == s.added(name),
        s.added(name).added(name).names.len() == s.added(name).names.len(),
{
    let t = s.added(name);
    if !s.names.contains(name) {
        assert(t.names[t.names.len() - 1] == name);
    }
}

/// Removing a name that is listed once reports it as present, takes it off
/// the list and out of what a fresh open finds; removing it again finds
/// nothing and changes nothing.
pub proof fn lemma_remove_then_absent(s: IndexState, name: Seq<char>)
    requires
        s.consistent(),
        s.names.to_multiset().count(name) == 1,
    ensures
        s.names.contains(name),
        !s.removed(name).names.contains(name),
        s.removed(name).removed(name) == s.removed(name),
        s.removed(name).consistent(),
        opens(s.removed(name).file),
        !opened(s.removed(name).file).names.contains(name),
{
    lemma_removed_consistent(s, name);
    let t = s.removed(name);
    assert(t.names.to_multiset().count(name) == 0);
    assert(listed_names(t.file).to_multiset().count(name) == 0);
}

/// A storable name that is not listed yet, multi-byte characters included,
/// comes back unchanged from a fresh open once added; removing it again
/// restores the list and a fresh open no longer finds it.
pub proof fn lemma_add_remove_round_trip(s: IndexState, name: Seq<char>)
    requires
        s.consistent(),
        valid_name(name),
        !s.names.contains(name),
    ensures
        opened(s.added(name).file).names.contains(name),
        s.added(name).removed(name).names == s.names,
        !opened(s.added(name).removed(name).file).names.contains(name),
{
    lemma_add_then_reopen(s, name);
    let t = s.added(name);
    assert(t.names.to_multiset().count(name) == 1);
    lemma_remove_then_absent(t, name);
    t.names.index_of_first_ensures(name);
    let i = t.names.index_of_first(name)->0;
    if i < s.names.len() {
        assert(s.names[i] == name);
    }
    assert(t.names.remove(i) =~= s.names);
}

/// A file without a recognised header (wrong magic tag, other version, too
/// short) opens as an empty index whose file is a fresh header of the
/// current version.
pub proof fn lemma_unrecognised_header_reset(contents: Seq<u8>)
    requires
        !header_valid(contents),
    ensures
        opens(contents),
        opened(contents).names.len() == 0,
        opened(contents).file == fresh_header(),
        header_valid(opened(contents).file),
        le_u32(opened(contents).file.subrange(MAGIC_SIZE as int, HEADER_SIZE as int)) == VERSION,
        opened(contents).consistent(),
{
    lemma_fresh_header_valid();
    assert(listed_names(fresh_header()) =~= Seq::<Seq<char>>::empty());
}

/// Fewer than a slot's worth of bytes after the last whole slot are
/// ignored: the file opens exactly as it would without them.
pub proof fn lemma_trailing_fragment_ignored(f: Seq<u8>, tail: Seq<u8>)
    requires
        header_valid(f),
        (f.len() - HEADER_SIZE) % (RECORD_SIZE as int) == 0,
        tail.len() < RECORD_SIZE,
    ensures
        header_valid(f + tail),
        opens(f + tail) == opens(f),
        opened(f + tail).names == opened(f).names,
{
    let g = f + tail;
    let n = slot_count(f);
    assert(slot_count(g) == n);
    assert(g.take(MAGIC_SIZE as int) =~= f.take(MAGIC_SIZE as int));
    assert(g.subrange(MAGIC_SIZE as int, HEADER_SIZE as int) =~= f.subrange(
        MAGIC_SIZE as int,
        HEADER_SIZE as int,
    ));
    assert forall|j: int| 0 <= j < n implies #[trigger] record(g, j) == record(f, j) by {
        assert(record(g, j) =~= record(f, j));
    }
    lemma_names_agree(f, g, n);
    assert forall|j: int| 0 <= j < n implies #[trigger] slot_decodable(g, j) == slot_decodable(
        f,
        j,
    ) by {
        assert(record(g, j) == record(f, j));
    }
    if records_decodable(f) {
        assert forall|j: int| 0 <= j < slot_count(g) implies #[trigger] slot_decodable(g, j) by {
            assert(slot_decodable(f, j));
        }
    } else {
        let j = choose|j: int| 0 <= j < slot_count(f) && !#[trigger] slot_decodable(f, j);
        assert(!slot_decodable(g, j));
    }
}

} // verus!
