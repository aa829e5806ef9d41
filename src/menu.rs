//! Decisions of the interactive front end: what the vault and entry menus
//! offer, and what an answer asks for next.

use crate::index::texts;
use base64::engine::general_purpose;
use base64::Engine;
use vstd::prelude::*;
use vstd::utf8::encode_utf8;

verus! {

/// The menu line that asks for a new vault.
pub open spec fn create_vault_text() -> Seq<char> {
    "< Create new vault >"@
}

/// The menu line that asks for a new entry.
pub open spec fn create_entry_text() -> Seq<char> {
    "< Create new entry >"@
}

/// The standard, padded base64 text of some bytes.
pub uninterp spec fn base64_of(b: Seq<u8>) -> Seq<char>;

/// The length of padded base64 text for `n` bytes: four characters for each
/// started group of three bytes.
pub open spec fn base64_len(n: int) -> int {
    4 * ((n + 2) / 3)
}

/// Relies on base64's `STANDARD` engine: `encode` returns the padded
/// standard base64 text of the bytes, of the length that `encoded_len`
/// computes, and panics only where that length overflows `usize`.
#[verifier::external_body]
fn base64_text(b: &[u8]) -> (r: String)
    requires
        base64_len(b@.len() as int) <= usize::MAX,
    ensures
        r@ == base64_of(b@),
        r@.len() == base64_len(b@.len() as int),
{
    general_purpose::STANDARD.encode(b)
}

/// The label of the vault menu's line that creates a vault.
pub fn create_vault_label() -> (r: String)
    ensures
        r@ == create_vault_text(),
{
    "< Create new vault >".to_owned()
}

/// The label of the entry menu's line that creates an entry.
pub fn create_entry_label() -> (r: String)
    ensures
        r@ == create_entry_text(),
{
    "< Create new entry >".to_owned()
}

/// What the vault menu does for a list of vaults.
pub enum VaultMenu {
    /// No vault exists yet: ask for the name of a first one.
    AskFirstVault,
    /// Offer these lines to choose from.
    Choose(Vec<String>),
}

/// What an answer to the vault menu asks for.
pub enum VaultAnswer {
    /// Ask for the name of a new vault, then show the menu again.
    CreateVault,
    /// Open the vault of this name.
    Open(String),
}

/// What an answer to the entry menu asks for.
pub enum EntryAnswer {
    /// Ask for a new entry and store it.
    CreateEntry,
    /// Show the entry stored under this key.
    Show(String),
}

/// The vault menu: with no vault, ask for a first one; otherwise offer the
/// vaults in order, then the line that creates one.
pub fn vault_menu(vaults: &[String]) -> (r: VaultMenu)
    ensures
        match r {
            VaultMenu::AskFirstVault => vaults@.len() == 0,
            VaultMenu::Choose(options) => {
                &&& vaults@.len() > 0
                &&& texts(options@) == texts(vaults@).push(create_vault_text())
            },
        },
{
    if vaults.len() == 0 {
        return VaultMenu::AskFirstVault;
    }
    let mut options: Vec<String> = Vec::new();
    let mut i: usize = 0;
    while i < vaults.len()
        invariant
            i <= vaults@.len(),
            texts(options@) == texts(vaults@.take(i as int)),
        decreases vaults@.len() - i,
    {
        let line = vaults[i].clone();
        proof {
            assert(texts(options@.push(line)) =~= texts(options@).push(line@));
            assert(vaults@.take(i + 1) =~= vaults@.take(i as int).push(vaults@[i as int]));
            assert(texts(vaults@.take(i + 1)) =~= texts(vaults@.take(i as int)).push(
                vaults@[i as int]@,
            ));
        }
        options.push(line);
        i = i + 1;
    }
    let create = create_vault_label();
    proof {
        assert(vaults@.take(vaults@.len() as int) =~= vaults@);
        assert(texts(options@.push(create)) =~= texts(options@).push(create@));
    }
    options.push(create);
    VaultMenu::Choose(options)
}

/// The vault menu's answer: its create line, or the name of a vault.
pub fn vault_answer(choice: String) -> (r: VaultAnswer)
    ensures
        match r {
            VaultAnswer::CreateVault => choice@ == create_vault_text(),
            VaultAnswer::Open(name) => choice@ != create_vault_text() && name@ == choice@,
        },
{
    if choice == create_vault_label() {
        VaultAnswer::CreateVault
    } else {
        VaultAnswer::Open(choice)
    }
}

/// The entry menu: the line that creates an entry, then the entries' names
/// in order.
pub fn entry_menu(names: Vec<String>) -> (r: Vec<String>)
    ensures
        texts(r@) == seq![create_entry_text()] + texts(names@),
{
    let mut options: Vec<String> = Vec::new();
    let create = create_entry_label();
    options.push(create);
    let mut i: usize = 0;
    while i < names.len()
        invariant
            i <= names@.len(),
            texts(options@) == seq![create_entry_text()] + texts(names@.take(i as int)),
        decreases names@.len() - i,
    {
        let line = names[i].clone();
        proof {
            assert(texts(options@.push(line)) =~= texts(options@).push(line@));
            assert(names@.take(i + 1) =~= names@.take(i as int).push(names@[i as int]));
            assert(texts(names@.take(i + 1)) =~= texts(names@.take(i as int)).push(
                names@[i as int]@,
            ));
        }
        options.push(line);
        i = i + 1;
    }
    assert(names@.take(names@.len() as int) =~= names@);
    options
}

/// The key under which an entry of this name is stored: the base64 text of
/// the name's UTF-8 bytes.
pub fn entry_key(name: &str) -> (r: String)
    requires
        base64_len(encode_utf8(name@).len() as int) <= usize::MAX,
    ensures
        r@ == base64_of(encode_utf8(name@)),
{
    base64_text(name.as_bytes())
}

/// The entry menu's answer: its create line, or the name of an entry to
/// show, which is looked up by its key.
pub fn entry_answer(choice: &str) -> (r: EntryAnswer)
    requires
        base64_len(encode_utf8(choice@).len() as int) <= usize::MAX,
    ensures
        match r {
            EntryAnswer::CreateEntry => choice@ == create_entry_text(),
            EntryAnswer::Show(key) => {
                &&& choice@ != create_entry_text()
                &&& key@ == base64_of(encode_utf8(choice@))
            },
        },
{
    let owned: String = choice.to_owned();
    if owned == create_entry_label() {
        EntryAnswer::CreateEntry
    } else {
        EntryAnswer::Show(entry_key(choice))
    }
}

} // verus!
