use vuoto::menu::{
    create_entry_label, create_vault_label, entry_answer, entry_key, entry_menu, vault_answer,
    vault_menu, EntryAnswer, VaultAnswer, VaultMenu,
};

#[test]
fn no_vault_asks_for_a_first_one() {
    assert!(matches!(vault_menu(&[]), VaultMenu::AskFirstVault));
}

#[test]
fn vault_menu_lists_vaults_then_the_create_line() {
    let vaults = vec!["work".to_string(), "home".to_string()];
    match vault_menu(&vaults) {
        VaultMenu::Choose(options) => assert_eq!(
            options,
            vec!["work".to_string(), "home".to_string(), "< Create new vault >".to_string()]
        ),
        VaultMenu::AskFirstVault => panic!("vaults exist"),
    }
}

#[test]
fn vault_answer_tells_create_from_a_vault() {
    assert!(matches!(vault_answer(create_vault_label()), VaultAnswer::CreateVault));
    match vault_answer("work".to_string()) {
        VaultAnswer::Open(name) => assert_eq!(name, "work"),
        VaultAnswer::CreateVault => panic!("a vault was chosen"),
    }
}

#[test]
fn entry_menu_puts_the_create_line_first() {
    let options = entry_menu(vec!["mail".to_string(), "bank".to_string()]);
    assert_eq!(
        options,
        vec!["< Create new entry >".to_string(), "mail".to_string(), "bank".to_string()]
    );
    assert_eq!(entry_menu(vec![]), vec![create_entry_label()]);
}

#[test]
fn entry_keys_are_standard_padded_base64() {
    assert_eq!(entry_key("vault1"), "dmF1bHQx");
    assert_eq!(entry_key("café"), "Y2Fmw6k=");
    assert_eq!(entry_key("ab"), "YWI=");
    assert_eq!(entry_key(""), "");
}

#[test]
fn entry_answer_looks_up_the_chosen_name_by_key() {
    assert!(matches!(entry_answer("< Create new entry >"), EntryAnswer::CreateEntry));
    match entry_answer("vault1") {
        EntryAnswer::Show(key) => assert_eq!(key, "dmF1bHQx"),
        EntryAnswer::CreateEntry => panic!("an entry was chosen"),
    }
}
