use magic_book::chain::MagicBook;
use magic_book::chain::MineError;
use magic_book::chain::Spell;
use magic_book::chain::Wizard;
use std::time::SystemTime;
use std::time::UNIX_EPOCH;

fn now_secs() -> u64 {
    SystemTime::now()
        .duration_since(UNIX_EPOCH)
        .expect("Time went backwards")
        .as_secs()
}

// Test if the MagicBook initializes with a genesis spell
#[test]
fn test_magic_book_initialization() {
    let magic_book = MagicBook::new();
    assert_eq!(magic_book.spells.len(), 1);
    assert_eq!(magic_book.spells[0].magic_word, "Let the magic begin!");
    assert_eq!(magic_book.spells[0].wizard.name, "Merlin");
}

// Test if a spell is added to the MagicBook
#[test]
fn test_add_spell() {
    let mut magic_book = MagicBook::new();
    let test_wizard = Wizard {
        name: "TestWizard".to_string(),
        public_key: vec![9, 10, 11, 12],
    };
    let test_spell = Spell {
        wizard: test_wizard,
        magic_word: "TestingMagic!".to_string(),
        timestamp: now_secs(),
        nonce: 0,
        prev_spell_hash: magic_book.compute_hash(magic_book.spells.last().unwrap()),
    };
    magic_book.add_spell(test_spell);
    assert_eq!(magic_book.spells.len(), 2);
    assert_eq!(magic_book.spells[1].magic_word, "TestingMagic!");
    assert_eq!(magic_book.spells[1].wizard.name, "TestWizard");
}

// Test if a mined spell is valid and matches the difficulty level
#[test]
fn test_mine_spell() {
    let mut magic_book = MagicBook::new();
    let test_wizard = Wizard {
        name: "TestWizard".to_string(),
        public_key: vec![9, 10, 11, 12],
    };
    let test_spell = Spell {
        wizard: test_wizard,
        magic_word: "TestingMagic!".to_string(),
        timestamp: now_secs(),
        nonce: 0,
        prev_spell_hash: magic_book.compute_hash(magic_book.spells.last().unwrap()),
    };
    let difficulty = 2;
    let _ = magic_book.mine_spell(test_spell, difficulty);
    assert_eq!(magic_book.spells.len(), 2);
    assert!(magic_book.hash_matches_difficulty(&magic_book.spells[1], difficulty));
}

// Genesis: exactly one entry, fixed identity and payload, empty prev hash.
#[test]
fn test_genesis_entry_fields() {
    let magic_book = MagicBook::new();
    assert_eq!(magic_book.spells.len(), 1);
    assert_eq!(magic_book.spells[0].wizard.name, "Merlin");
    assert_eq!(magic_book.spells[0].wizard.public_key, b"AbraKadabra".to_vec());
    assert_eq!(magic_book.spells[0].magic_word, "Let the magic begin!");
    assert_eq!(magic_book.spells[0].nonce, 0);
    assert!(magic_book.spells[0].prev_spell_hash.is_empty());
}

// Hashing the same spell twice yields identical bytes; changing any single
// field changes the digest.
#[test]
fn test_hash_deterministic_and_field_sensitive() {
    let magic_book = MagicBook::new();
    let base = Spell {
        wizard: Wizard {
            name: "TestWizard".to_string(),
            public_key: vec![1, 2, 3],
        },
        magic_word: "TestingMagic!".to_string(),
        timestamp: 1000,
        nonce: 7,
        prev_spell_hash: vec![0xaa, 0xbb],
    };
    let h1 = magic_book.compute_hash(&base);
    let h2 = magic_book.compute_hash(&base);
    assert_eq!(h1, h2);

    let mut other = base.clone();
    other.nonce = 8;
    assert_ne!(magic_book.compute_hash(&other), h1);

    let mut other = base.clone();
    other.magic_word = "TestingMagic?".to_string();
    assert_ne!(magic_book.compute_hash(&other), h1);

    let mut other = base.clone();
    other.timestamp = 1001;
    assert_ne!(magic_book.compute_hash(&other), h1);

    let mut other = base.clone();
    other.prev_spell_hash = vec![0xaa, 0xbc];
    assert_ne!(magic_book.compute_hash(&other), h1);

    let mut other = base.clone();
    other.wizard.name = "TestWizarD".to_string();
    assert_ne!(magic_book.compute_hash(&other), h1);

    let mut other = base.clone();
    other.wizard.public_key = vec![1, 2, 4];
    assert_ne!(magic_book.compute_hash(&other), h1);
}

// The hash is a real 32-byte digest of the serialization, not the
// serialization itself.
#[test]
fn test_hash_is_fixed_size_digest() {
    let magic_book = MagicBook::new();
    let encoding = magic_book::chain::encode_spell(&magic_book.spells[0]);
    let hash = magic_book.compute_hash(&magic_book.spells[0]);
    assert_eq!(hash.len(), 32);
    assert_ne!(encoding.len(), 32);
    assert_ne!(hash, encoding);
}

// Linkage validation: true iff the candidate's prev hash is the tail's hash.
#[test]
fn test_validate_spell_linkage() {
    let magic_book = MagicBook::new();
    let good = Spell {
        wizard: Wizard {
            name: "TestWizard".to_string(),
            public_key: vec![],
        },
        magic_word: "TestingMagic!".to_string(),
        timestamp: now_secs(),
        nonce: 0,
        prev_spell_hash: magic_book.compute_hash(magic_book.spells.last().unwrap()),
    };
    assert!(magic_book.validate_spell(&good));

    let mut bad = good.clone();
    bad.prev_spell_hash = vec![1, 2, 3];
    assert!(!magic_book.validate_spell(&bad));
}

fn candidate(book: &MagicBook, name: &str, word: &str) -> Spell {
    Spell {
        wizard: Wizard {
            name: name.to_string(),
            public_key: vec![1, 2, 3, 4],
        },
        magic_word: word.to_string(),
        timestamp: now_secs(),
        nonce: 0,
        prev_spell_hash: book.compute_hash(book.spells.last().unwrap()),
    }
}

// Difficulty satisfaction for d in {0, 1, 2}: the appended spell's hash
// starts with d zero bytes.
#[test]
fn test_mine_difficulty_satisfaction() {
    for difficulty in 0..3usize {
        let mut magic_book = MagicBook::new();
        let spell = candidate(&magic_book, "TestWizard", "TestingMagic!");
        let outcome = magic_book.mine_spell(spell, difficulty);
        let nonce = outcome.expect("mining should succeed");
        assert_eq!(magic_book.spells.len(), 2);
        assert_eq!(magic_book.spells[1].nonce, nonce);
        let hash = magic_book.compute_hash(&magic_book.spells[1]);
        for i in 0..difficulty {
            assert_eq!(hash[i], 0);
        }
    }
}

// Chain-of-two scenario: Gandalf then Dumbledore, both at difficulty 2.
#[test]
fn test_chain_of_two() {
    let mut magic_book = MagicBook::new();

    let gandalf_spell = Spell {
        wizard: Wizard {
            name: "Gandalf".to_string(),
            public_key: vec![1, 2, 3, 4],
        },
        magic_word: "You shall not pass!".to_string(),
        timestamp: now_secs(),
        nonce: 0,
        prev_spell_hash: magic_book.compute_hash(magic_book.spells.last().unwrap()),
    };
    magic_book
        .mine_spell(gandalf_spell, 2)
        .expect("mining should succeed");
    assert_eq!(magic_book.spells.len(), 2);
    assert_eq!(
        magic_book.spells[1].prev_spell_hash,
        magic_book.compute_hash(&magic_book.spells[0])
    );
    let hash1 = magic_book.compute_hash(&magic_book.spells[1]);
    assert_eq!(hash1[0], 0);
    assert_eq!(hash1[1], 0);

    let dumbledore_spell = Spell {
        wizard: Wizard {
            name: "Dumbledore".to_string(),
            public_key: vec![5, 6, 7, 8],
        },
        magic_word: "Expelliarmus!".to_string(),
        timestamp: now_secs(),
        nonce: 0,
        prev_spell_hash: magic_book.compute_hash(magic_book.spells.last().unwrap()),
    };
    magic_book
        .mine_spell(dumbledore_spell, 2)
        .expect("mining should succeed");
    assert_eq!(magic_book.spells.len(), 3);
    assert_eq!(
        magic_book.spells[2].prev_spell_hash,
        magic_book.compute_hash(&magic_book.spells[1])
    );
    let hash2 = magic_book.compute_hash(&magic_book.spells[2]);
    assert_eq!(hash2[0], 0);
    assert_eq!(hash2[1], 0);
}

// A candidate with the wrong predecessor hash is rejected at once and the
// chain is unchanged.
#[test]
fn test_mine_linkage_mismatch() {
    let mut magic_book = MagicBook::new();
    let mut spell = candidate(&magic_book, "TestWizard", "TestingMagic!");
    spell.prev_spell_hash = vec![9, 9, 9];
    let outcome = magic_book.mine_spell(spell, 0);
    assert_eq!(outcome, Err(MineError::LinkageMismatch));
    assert_eq!(magic_book.spells.len(), 1);
}

// A search that starts at the last nonce and cannot satisfy the difficulty
// reports exhaustion and leaves the chain unchanged.
#[test]
fn test_mine_nonce_exhausted() {
    let mut magic_book = MagicBook::new();
    let mut spell = candidate(&magic_book, "TestWizard", "TestingMagic!");
    spell.nonce = u64::MAX;
    let outcome = magic_book.mine_spell(spell, 32);
    assert_eq!(outcome, Err(MineError::NonceExhausted));
    assert_eq!(magic_book.spells.len(), 1);
}

// A difficulty beyond the digest length asks every byte to be zero.
#[test]
fn test_bytes_meet_difficulty_edges() {
    assert!(magic_book::chain::bytes_meet_difficulty(&vec![], 0));
    assert!(magic_book::chain::bytes_meet_difficulty(&vec![], 5));
    assert!(magic_book::chain::bytes_meet_difficulty(&vec![0, 0, 7], 2));
    assert!(!magic_book::chain::bytes_meet_difficulty(&vec![0, 0, 7], 3));
    assert!(!magic_book::chain::bytes_meet_difficulty(&vec![0, 0, 7], 64));
    assert!(magic_book::chain::bytes_meet_difficulty(&vec![0, 0, 0], 64));
}

// Per-identity index consistency: every wizard's record lists exactly the
// positions of that wizard's spells, in order.
#[test]
fn test_spell_positions_index() {
    let mut magic_book = MagicBook::new();
    for (name, word) in [
        ("Gandalf", "You shall not pass!"),
        ("Merlin", "Again!"),
        ("Gandalf", "Fly, you fools!"),
    ] {
        let spell = candidate(&magic_book, name, word);
        magic_book.add_spell(spell);
    }
    assert_eq!(
        magic_book.spell_positions(&"Merlin".to_string()),
        Some(&vec![0usize, 2])
    );
    assert_eq!(
        magic_book.spell_positions(&"Gandalf".to_string()),
        Some(&vec![1usize, 3])
    );
    assert_eq!(magic_book.spell_positions(&"Dumbledore".to_string()), None);
}
