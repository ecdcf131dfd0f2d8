use alkyon::table::Table;
use alkyon::vault::{
    part_key, parts_promised, plan_delete, plan_store, read, run, split, units, Vault, CHUNK,
    PARTS,
};

/// What Windows Credential Manager takes in one entry.
const PLATFORM_BYTES: usize = 2560;

fn held(vault: &Vault) -> &Table<String> {
    match vault {
        Vault::Memory(entries) => entries,
        Vault::Keyring => unreachable!("the tests use the memory vault"),
    }
}

fn load(vault: &Vault, id: &str) -> Option<String> {
    vault.load(id, &Table::new()).unwrap()
}

#[test]
fn memory_vault_round_trips() {
    let mut vault = Vault::memory();
    assert_eq!(load(&vault, "pg"), None);

    assert!(vault.store("pg", "hunter2").is_empty());
    assert_eq!(load(&vault, "pg").as_deref(), Some("hunter2"));

    vault.store("pg", "hunter3");
    assert_eq!(load(&vault, "pg").as_deref(), Some("hunter3"));

    vault.delete("pg");
    assert_eq!(load(&vault, "pg"), None);
    vault.delete("pg");
    assert_eq!(load(&vault, "pg"), None);
}

#[test]
fn a_secret_too_long_for_one_entry_is_split_and_rejoined() {
    let mut vault = Vault::memory();
    let long: String = "0.AXkAus".repeat(700);
    assert!(units(&long) > CHUNK as u128, "the fixture has to be over the limit");

    vault.store("azure", &long);
    assert_eq!(load(&vault, "azure").as_deref(), Some(long.as_str()));

    let entries = held(&vault);
    assert!(entries.len() > 1);
    for i in 0..entries.len() {
        let bytes = units(entries.value_at(i)) * 2;
        assert!(
            bytes <= PLATFORM_BYTES as u128,
            "{} is {bytes} bytes, past the {PLATFORM_BYTES} the platform takes",
            entries.key_at(i)
        );
    }
    assert!(entries.get("azure").unwrap().starts_with(PARTS));
}

#[test]
fn a_secret_that_fits_is_stored_exactly_as_before() {
    let mut vault = Vault::memory();
    vault.store("pg", "hunter2");
    let entries = held(&vault);
    assert_eq!(entries.len(), 1);
    assert_eq!(entries.get("pg").map(String::as_str), Some("hunter2"));
}

#[test]
fn parts_do_not_outlive_the_secret_that_needed_them() {
    let mut vault = Vault::memory();
    let long: String = "x".repeat(CHUNK * 3);

    vault.store("azure", &long);
    vault.store("azure", "short");
    assert_eq!(load(&vault, "azure").as_deref(), Some("short"));
    assert_eq!(held(&vault).len(), 1);

    vault.store("azure", &long);
    vault.delete("azure");
    assert_eq!(load(&vault, "azure"), None);
    assert_eq!(held(&vault).len(), 0);
}

#[test]
fn a_missing_part_is_not_a_shorter_secret() {
    let mut vault = Vault::memory();
    let long: String = "x".repeat(CHUNK * 2);
    vault.store("azure", &long);

    if let Vault::Memory(entries) = &mut vault {
        entries.remove(&part_key("azure", 2));
    }
    assert!(vault.load("azure", &Table::new()).is_err());
}

#[test]
fn nothing_is_split_through_the_middle_of_a_character() {
    let emoji: String = "🦆".repeat(CHUNK);
    let parts = split(&emoji);
    assert!(parts.len() > 1);
    for part in &parts {
        assert!(units(part) <= CHUNK as u128);
    }
    assert_eq!(parts.concat(), emoji);
}

#[test]
fn a_keychain_is_left_the_steps() {
    let mut vault = Vault::from_setting(None);
    assert_eq!(vault.describe(), "os keychain");
    let long: String = "x".repeat(CHUNK * 2);
    let mut keychain: Table<String> = Table::new();
    run(&mut keychain, &vault.store("azure", &long));
    assert_eq!(vault.load("azure", &keychain).unwrap(), Some(long));
    run(&mut keychain, &vault.delete("azure"));
    assert_eq!(keychain.len(), 0);
    assert_eq!(Vault::from_setting(Some("memory")).describe(), "memory");
    assert_eq!(Vault::from_setting(Some("other")).describe(), "os keychain");
}

#[test]
fn a_header_that_promises_the_impossible_is_an_error() {
    let mut entries: Table<String> = Table::new();
    entries.insert("azure".to_owned(), format!("{PARTS}99"));
    let refused = read(&entries, "azure").err().unwrap();
    assert!(refused.message().contains("which it cannot be"), "{}", refused.message());
    assert_eq!(parts_promised("hunter2"), 0);
    assert_eq!(parts_promised(&format!("{PARTS}3")), 3);
}

#[test]
fn one_secret_does_not_touch_another() {
    let mut entries: Table<String> = Table::new();
    run(&mut entries, &plan_store("user:a", "one"));
    run(&mut entries, &plan_store("user:b", "two"));
    run(&mut entries, &plan_delete("user:a"));
    assert_eq!(read(&entries, "user:a").unwrap(), None);
    assert_eq!(read(&entries, "user:b").unwrap().as_deref(), Some("two"));
}
