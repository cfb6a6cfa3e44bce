//! The proof-of-work hash chain: wizards, spells, and the book that links
//! them.

use vstd::prelude::*;
use vstd::string::StringSliceAdditionalSpecFns;
use vstd::bytes::spec_u64_to_le_bytes;
use vstd::bytes::lemma_auto_spec_u64_to_from_le_bytes;
use crate::digest::current_unix_seconds;
use crate::digest::sha256;
use crate::digest::sha256_of;
use crate::encoding::blob_bytes;
use crate::encoding::chars_bytes;
use crate::encoding::lemma_chars_bytes_injective;
use crate::encoding::lemma_chars_bytes_len;
use crate::encoding::lemma_concat_split;
use crate::encoding::push_bytes;
use crate::encoding::push_chars;
use crate::encoding::push_u64;
use crate::encoding::string_bytes;

verus! {

/// A named actor. The key blob is opaque caller-supplied data, unused in any
/// cryptographic operation.
#[derive(Clone, Debug)]
pub struct Wizard {
    pub name: String,
    pub public_key: Vec<u8>,
}

/// The mathematical content of a `Wizard`.
#[verifier::ext_equal]
pub struct WizardView {
    pub name: Seq<char>,
    pub public_key: Seq<u8>,
}

impl View for Wizard {
    type V = WizardView;

    open spec fn view(&self) -> WizardView {
        WizardView { name: self.name@, public_key: self.public_key@ }
    }
}

/// One chain record: a wizard's spell, linked to its predecessor by
/// `prev_spell_hash`.
#[derive(Clone, Debug)]
pub struct Spell {
    pub wizard: Wizard,
    pub magic_word: String,
    pub timestamp: u64,
    pub nonce: u64,
    pub prev_spell_hash: Vec<u8>,
}

/// The mathematical content of a `Spell`.
#[verifier::ext_equal]
pub struct SpellView {
    pub wizard: WizardView,
    pub magic_word: Seq<char>,
    pub timestamp: u64,
    pub nonce: u64,
    pub prev_spell_hash: Seq<u8>,
}

impl View for Spell {
    type V = SpellView;

    open spec fn view(&self) -> SpellView {
        SpellView {
            wizard: self.wizard@,
            magic_word: self.magic_word@,
            timestamp: self.timestamp,
            nonce: self.nonce,
            prev_spell_hash: self.prev_spell_hash@,
        }
    }
}

/// The canonical byte serialization of a spell: every field in order, the
/// variable-sized ones length-prefixed.
pub open spec fn spell_encoding(s: SpellView) -> Seq<u8> {
    string_bytes(s.wizard.name) + blob_bytes(s.wizard.public_key) + string_bytes(s.magic_word)
        + spec_u64_to_le_bytes(s.timestamp) + spec_u64_to_le_bytes(s.nonce) + blob_bytes(
        s.prev_spell_hash,
    )
}

/// The hash of a spell: the SHA-256 digest of its canonical serialization.
pub open spec fn spell_hash(s: SpellView) -> Seq<u8> {
    sha256_of(spell_encoding(s))
}

/// SHA-256 accepts messages of fewer than 2^61 bytes.
pub open spec fn spell_fits(s: SpellView) -> bool {
    spell_encoding(s).len() < 0x2000000000000000
}

/// True iff the first `difficulty` bytes of `hash` are all zero. A
/// `difficulty` larger than the digest length is legal and unsatisfiable
/// except by the digest being all zero.
pub open spec fn hash_meets_difficulty(hash: Seq<u8>, difficulty: int) -> bool {
    forall|i: int| 0 <= i < difficulty && i < hash.len() ==> hash[i] == 0
}

/// The spell as it stands with its nonce replaced.
pub open spec fn with_nonce(s: SpellView, nonce: u64) -> SpellView {
    SpellView { nonce, ..s }
}

/// The nonce takes a fixed eight bytes, so it never changes the encoded
/// length.
pub proof fn lemma_encoding_len_nonce_independent(s: SpellView, nonce: u64)
    ensures
        spell_encoding(with_nonce(s, nonce)).len() == spell_encoding(s).len(),
{
    lemma_auto_spec_u64_to_from_le_bytes();
}

/// Builds the canonical serialization of a spell.
pub fn encode_spell(spell: &Spell) -> (r: Vec<u8>)
    ensures
        r@ == spell_encoding(spell@),
{
    let mut out: Vec<u8> = Vec::new();
    push_u64(&mut out, spell.wizard.name.as_str().unicode_len() as u64);
    push_chars(&mut out, spell.wizard.name.as_str());
    push_u64(&mut out, spell.wizard.public_key.len() as u64);
    push_bytes(&mut out, &spell.wizard.public_key);
    push_u64(&mut out, spell.magic_word.as_str().unicode_len() as u64);
    push_chars(&mut out, spell.magic_word.as_str());
    push_u64(&mut out, spell.timestamp);
    push_u64(&mut out, spell.nonce);
    push_u64(&mut out, spell.prev_spell_hash.len() as u64);
    push_bytes(&mut out, &spell.prev_spell_hash);
    proof {
        assert(out@ =~= spell_encoding(spell@));
    }
    out
}

/// One per-wizard index record: the positions in the book's `spells` of the
/// spells cast under `name`.
#[derive(Clone, Debug)]
pub struct WizardSpells {
    pub name: String,
    pub positions: Vec<usize>,
}

/// The positions in `spells`, in increasing order, of the spells cast by the
/// wizard of the given name.
pub open spec fn positions_of(spells: Seq<Spell>, name: Seq<char>) -> Seq<int>
    decreases spells.len(),
{
    if spells.len() == 0 {
        Seq::empty()
    } else {
        let prefix = positions_of(spells.drop_last(), name);
        if spells.last().wizard.name@ == name {
            prefix.push(spells.len() - 1)
        } else {
            prefix
        }
    }
}

/// Appending a spell extends the position list of its wizard by the new
/// position and leaves every other list unchanged.
pub proof fn lemma_positions_of_push(spells: Seq<Spell>, spell: Spell, name: Seq<char>)
    ensures
        spell.wizard.name@ == name ==> positions_of(spells.push(spell), name) == positions_of(
            spells,
            name,
        ).push(spells.len() as int),
        spell.wizard.name@ != name ==> positions_of(spells.push(spell), name) == positions_of(
            spells,
            name,
        ),
{
    assert(spells.push(spell).drop_last() =~= spells);
    assert(spells.push(spell).last() == spell);
}

/// Every listed position is in range and points at a spell of the given
/// name; the list is strictly increasing; and every position of a spell of
/// the given name is listed.
pub proof fn lemma_positions_of_props(spells: Seq<Spell>, name: Seq<char>)
    ensures
        forall|j: int|
            0 <= j < positions_of(spells, name).len() ==> 0 <= #[trigger] positions_of(
                spells,
                name,
            )[j] < spells.len() && spells[positions_of(spells, name)[j]].wizard.name@ == name,
        forall|j1: int, j2: int|
            0 <= j1 < j2 < positions_of(spells, name).len() ==> positions_of(spells, name)[j1]
                < positions_of(spells, name)[j2],
        forall|i: int|
            0 <= i < spells.len() && spells[i].wizard.name@ == name ==> positions_of(
                spells,
                name,
            ).contains(i),
    decreases spells.len(),
{
    if spells.len() > 0 {
        let prefix = spells.drop_last();
        lemma_positions_of_props(prefix, name);
        assert forall|i: int|
            0 <= i < spells.len() && spells[i].wizard.name@ == name implies positions_of(
            spells,
            name,
        ).contains(i) by {
            if i < prefix.len() {
                assert(prefix[i] == spells[i]);
                assert(positions_of(prefix, name).contains(i));
                let j = choose|j: int|
                    0 <= j < positions_of(prefix, name).len() && positions_of(prefix, name)[j]
                        == i;
                assert(positions_of(spells, name)[j] == i);
            } else {
                let p = positions_of(spells, name);
                assert(p[p.len() - 1] == i);
            }
        }
    }
}

/// If no spell carries the given name, its position list is empty.
pub proof fn lemma_positions_of_absent(spells: Seq<Spell>, name: Seq<char>)
    requires
        forall|i: int| 0 <= i < spells.len() ==> (#[trigger] spells[i]).wizard.name@ != name,
    ensures
        positions_of(spells, name) == Seq::<int>::empty(),
{
    lemma_positions_of_props(spells, name);
    if positions_of(spells, name).len() > 0 {
        let p = positions_of(spells, name)[0];
        assert(spells[p].wizard.name@ == name);
    }
    assert(positions_of(spells, name) =~= Seq::<int>::empty());
}

/// An index record is right for a chain when it lists at least one position
/// and exactly the positions of its wizard's spells.
pub open spec fn record_ok(spells: Seq<Spell>, r: WizardSpells) -> bool {
    &&& r.positions@.len() > 0
    &&& r.positions@.map_values(|p: usize| p as int) == positions_of(spells, r.name@)
}

/// Why mining declined to extend the chain.
#[derive(Clone, Copy, Debug, PartialEq, Eq)]
pub enum MineError {
    /// The candidate's recorded predecessor hash is not the hash of the
    /// current tail; no nonce can mend that.
    LinkageMismatch,
    /// No nonce from the candidate's own up to `u64::MAX` met the
    /// difficulty.
    NonceExhausted,
}

/// True iff the first `difficulty` bytes of `hash` are all zero.
pub fn bytes_meet_difficulty(hash: &Vec<u8>, difficulty: usize) -> (r: bool)
    ensures
        r == hash_meets_difficulty(hash@, difficulty as int),
{
    let mut i: usize = 0;
    while i < hash.len() && i < difficulty
        invariant
            i <= hash@.len(),
            i <= difficulty,
            forall|j: int| 0 <= j < i ==> hash@[j] == 0,
        decreases hash@.len() - i,
    {
        if hash[i] != 0 {
            return false;
        }
        i += 1;
    }
    true
}

/// A book of spells: the chain itself, and a per-wizard index into it.
#[derive(Debug)]
pub struct MagicBook {
    pub spells: Vec<Spell>,
    pub wizard_spellbook: Vec<WizardSpells>,
}

impl MagicBook {
    /// Every stored spell fits the digest's input bound.
    pub open spec fn spells_fit(self) -> bool {
        forall|i: int| 0 <= i < self.spells@.len() ==> spell_fits(#[trigger] self.spells@[i]@)
    }

    /// No two index records share a name.
    pub open spec fn index_names_unique(self) -> bool {
        forall|k1: int, k2: int|
            0 <= k1 < k2 < self.wizard_spellbook@.len() ==> (#[trigger] self.wizard_spellbook@[k1]).name@
                != (#[trigger] self.wizard_spellbook@[k2]).name@
    }

    /// Every index record lists exactly its wizard's positions.
    pub open spec fn index_records_ok(self) -> bool {
        forall|k: int|
            0 <= k < self.wizard_spellbook@.len() ==> record_ok(
                self.spells@,
                #[trigger] self.wizard_spellbook@[k],
            )
    }

    /// There is an index record for the given wizard name.
    pub open spec fn has_record_for(self, name: Seq<char>) -> bool {
        exists|k: int|
            0 <= k < self.wizard_spellbook@.len() && (#[trigger] self.wizard_spellbook@[k]).name@
                == name
    }

    /// Every spell's wizard has an index record.
    pub open spec fn index_complete(self) -> bool {
        forall|i: int|
            0 <= i < self.spells@.len() ==> self.has_record_for(
                (#[trigger] self.spells@[i]).wizard.name@,
            )
    }

    /// Well-formedness: the spells fit the digest's input bound, and the
    /// per-wizard index holds, once per name occurring in the chain and for
    /// no other name, exactly the positions of that wizard's spells.
    pub open spec fn wf(self) -> bool {
        &&& self.spells_fit()
        &&& self.index_names_unique()
        &&& self.index_records_ok()
        &&& self.index_complete()
    }

    /// Initializes a new book, seeded through the ordinary append path with
    /// the genesis spell: Merlin's opening words, a zero nonce and no
    /// predecessor hash. The timestamp is read from the wall clock; when the
    /// clock reads earlier than the Unix epoch the genesis is stamped zero.
    pub fn new() -> (book: MagicBook)
        ensures
            book.wf(),
            book.spells@.len() == 1,
            book.spells@[0].wizard.name@ == "Merlin"@,
            book.spells@[0].wizard.public_key@ == "AbraKadabra".spec_bytes(),
            book.spells@[0].magic_word@ == "Let the magic begin!"@,
            book.spells@[0].nonce == 0,
            book.spells@[0].prev_spell_hash@ == Seq::<u8>::empty(),
    {
        let timestamp: u64 = match current_unix_seconds() {
            Some(t) => t,
            None => 0,
        };
        let genesis_spell = Spell {
            wizard: Wizard {
                name: "Merlin".to_owned(),
                public_key: "AbraKadabra".as_bytes_vec(),
            },
            magic_word: "Let the magic begin!".to_owned(),
            timestamp,
            nonce: 0,
            prev_spell_hash: Vec::new(),
        };
        let mut book = MagicBook { spells: Vec::new(), wizard_spellbook: Vec::new() };
        proof {
            reveal_strlit("Merlin");
            reveal_strlit("Let the magic begin!");
            reveal_strlit("AbraKadabra");
            assert(vstd::utf8::is_ascii_chars("AbraKadabra"@));
            vstd::utf8::is_ascii_chars_encode_utf8("AbraKadabra"@);
            lemma_chars_bytes_len("Merlin"@);
            lemma_chars_bytes_len("Let the magic begin!"@);
            lemma_auto_spec_u64_to_from_le_bytes();
            assert(spell_fits(genesis_spell@));
        }
        book.add_spell(genesis_spell);
        book
    }

    /// Computes the hash of a spell: the SHA-256 digest of its canonical
    /// serialization. A pure function of the spell's fields.
    pub fn compute_hash(&self, spell: &Spell) -> (r: Vec<u8>)
        requires
            spell_fits(spell@),
        ensures
            r@ == spell_hash(spell@),
            r@.len() == 32,
    {
        let bytes = encode_spell(spell);
        sha256(&bytes)
    }

    /// Checks a candidate's linkage against the book's current state: true
    /// iff its recorded predecessor hash is the hash of the current tail.
    /// Read-only; the candidate's own proof of work is not examined.
    pub fn validate_spell(&self, new_spell: &Spell) -> (r: bool)
        requires
            self.wf(),
            self.spells@.len() >= 1,
        ensures
            r == (new_spell.prev_spell_hash@ == spell_hash(self.spells@.last()@)),
    {
        proof {
            assert(spell_fits(self.spells@[self.spells@.len() - 1]@));
        }
        let tail = &self.spells[self.spells.len() - 1];
        let tail_hash = self.compute_hash(tail);
        crate::bytes_eq(&new_spell.prev_spell_hash, &tail_hash)
    }

    /// Checks whether a spell's hash meets the difficulty: its first
    /// `difficulty` bytes are all zero.
    pub fn hash_matches_difficulty(&self, spell: &Spell, difficulty: usize) -> (r: bool)
        requires
            spell_fits(spell@),
        ensures
            r == hash_meets_difficulty(spell_hash(spell@), difficulty as int),
    {
        let hash = self.compute_hash(spell);
        bytes_meet_difficulty(&hash, difficulty)
    }

    /// Mines a spell: validates its linkage once, failing fast on a
    /// mismatch, then searches upward from the spell's own nonce for the
    /// least nonce whose hash meets the difficulty, and appends the spell so
    /// finalized. Reports exhaustion if no nonce up to `u64::MAX` serves.
    pub fn mine_spell(&mut self, spell: Spell, difficulty: usize) -> (r: Result<
        u64,
        MineError,
    >)
        requires
            old(self).wf(),
            old(self).spells@.len() >= 1,
            spell_fits(spell@),
        ensures
            final(self).wf(),
            match r {
                Ok(nonce) => {
                    &&& nonce >= spell.nonce
                    &&& spell.prev_spell_hash@ == spell_hash(old(self).spells@.last()@)
                    &&& final(self).spells@ == old(self).spells@.push(
                        (Spell { nonce, ..spell }),
                    )
                    &&& hash_meets_difficulty(
                        spell_hash(with_nonce(spell@, nonce)),
                        difficulty as int,
                    )
                    &&& forall|m: u64|
                        spell.nonce <= m < nonce ==> !hash_meets_difficulty(
                            spell_hash(with_nonce(spell@, m)),
                            difficulty as int,
                        )
                },
                Err(MineError::LinkageMismatch) => {
                    &&& *final(self) == *old(self)
                    &&& spell.prev_spell_hash@ != spell_hash(old(self).spells@.last()@)
                },
                Err(MineError::NonceExhausted) => {
                    &&& *final(self) == *old(self)
                    &&& spell.prev_spell_hash@ == spell_hash(old(self).spells@.last()@)
                    &&& forall|m: u64|
                        spell.nonce <= m ==> !hash_meets_difficulty(
                            spell_hash(with_nonce(spell@, m)),
                            difficulty as int,
                        )
                },
            },
    {
        if !self.validate_spell(&spell) {
            return Err(MineError::LinkageMismatch);
        }
        let mut mined = spell;
        loop
            invariant
                self.wf(),
                *self == *old(self),
                self.spells@.len() >= 1,
                spell_fits(spell@),
                mined == (Spell { nonce: mined.nonce, ..spell }),
                mined.nonce >= spell.nonce,
                spell.prev_spell_hash@ == spell_hash(old(self).spells@.last()@),
                forall|m: u64|
                    spell.nonce <= m < mined.nonce ==> !hash_meets_difficulty(
                        spell_hash(with_nonce(spell@, m)),
                        difficulty as int,
                    ),
            decreases u64::MAX - mined.nonce,
        {
            proof {
                lemma_encoding_len_nonce_independent(spell@, mined.nonce);
                assert(mined@ == with_nonce(spell@, mined.nonce));
            }
            if self.hash_matches_difficulty(&mined, difficulty) {
                let nonce: u64 = mined.nonce;
                self.add_spell(mined);
                return Ok(nonce);
            }
            if mined.nonce == u64::MAX {
                return Err(MineError::NonceExhausted);
            }
            mined.nonce = mined.nonce + 1;
        }
    }

    /// The positions of the given wizard's spells, in order, or None when
    /// no spell was cast under that name.
    pub fn spell_positions<'a>(&'a self, name: &String) -> (r: Option<&'a Vec<usize>>)
        requires
            self.wf(),
        ensures
            match r {
                Some(positions) => positions@.map_values((|p: usize| p as int))
                    == positions_of(self.spells@, name@),
                None => positions_of(self.spells@, name@) == Seq::<int>::empty(),
            },
    {
        let mut k: usize = 0;
        while k < self.wizard_spellbook.len()
            invariant
                self.wf(),
                k <= self.wizard_spellbook@.len(),
                forall|j: int|
                    0 <= j < k ==> (#[trigger] self.wizard_spellbook@[j]).name@ != name@,
            decreases self.wizard_spellbook@.len() - k,
        {
            if self.wizard_spellbook[k].name == *name {
                return Some(&self.wizard_spellbook[k].positions);
            }
            k += 1;
        }
        proof {
            assert forall|i: int|
                0 <= i < self.spells@.len() implies (#[trigger] self.spells@[i]).wizard.name@
                != name@ by {
                if self.spells@[i].wizard.name@ == name@ {
                    assert(self.has_record_for(name@));
                    let kk = choose|kk: int|
                        0 <= kk < self.wizard_spellbook@.len() && (
                        #[trigger] self.wizard_spellbook@[kk]).name@ == name@;
                }
            }
            lemma_positions_of_absent(self.spells@, name@);
        }
        None
    }

    /// Adds a spell to the book: pushes it onto the chain and records its
    /// position under its wizard's name, creating the index record on first
    /// use. No validation happens here; that is the mining operation's
    /// concern.
    pub fn add_spell(&mut self, spell: Spell)
        requires
            old(self).wf(),
            spell_fits(spell@),
        ensures
            final(self).wf(),
            final(self).spells@ == old(self).spells@.push(spell),
    {
        let new_pos: usize = self.spells.len();
        let name_copy: String = spell.wizard.name.clone();
        let ghost nm = spell.wizard.name@;
        self.spells.push(spell);
        let len_book: usize = self.wizard_spellbook.len();
        let mut found: usize = len_book;
        let mut k: usize = 0;
        while k < len_book
            invariant
                len_book == self.wizard_spellbook@.len(),
                k <= len_book,
                name_copy@ == nm,
                found == len_book || (found < k && (self.wizard_spellbook@[found as int]).name@
                    == nm),
                found == len_book ==> forall|j: int|
                    0 <= j < k ==> (#[trigger] self.wizard_spellbook@[j]).name@ != nm,
            decreases len_book - k,
        {
            if self.wizard_spellbook[k].name == name_copy {
                found = k;
            }
            k += 1;
        }
        if found < len_book {
            let mut record = self.wizard_spellbook.swap_remove(found);
            record.positions.push(new_pos);
            self.wizard_spellbook.push(record);
            proof {
                lemma_add_spell_existing(*old(self), *self, spell, found as int);
            }
        } else {
            let mut positions: Vec<usize> = Vec::new();
            positions.push(new_pos);
            let record = WizardSpells { name: name_copy, positions };
            self.wizard_spellbook.push(record);
            proof {
                lemma_add_spell_fresh(*old(self), *self, spell);
            }
        }
    }
}

/// The hash of a spell is a function of its fields alone: equal entries,
/// nonce included, give equal digests, whenever and wherever they are
/// hashed.
pub proof fn lemma_hash_deterministic(a: SpellView, b: SpellView)
    requires
        a == b,
    ensures
        spell_hash(a) == spell_hash(b),
{
}

/// The canonical serialization is injective: distinct spells, differing in
/// any field, have distinct encodings. That a changed field changes the hash
/// itself then rests on the digest's collision resistance, which is beyond
/// the reach of proof.
pub proof fn lemma_encoding_injective(a: SpellView, b: SpellView)
    requires
        spell_encoding(a) == spell_encoding(b),
        spell_fits(a),
        spell_fits(b),
    ensures
        a == b,
{
    lemma_auto_spec_u64_to_from_le_bytes();
    lemma_chars_bytes_len(a.wizard.name);
    lemma_chars_bytes_len(b.wizard.name);
    lemma_chars_bytes_len(a.magic_word);
    lemma_chars_bytes_len(b.magic_word);
    // the name: its length prefix first, then its characters
    let tail_a = chars_bytes(a.wizard.name) + (blob_bytes(a.wizard.public_key) + (string_bytes(
        a.magic_word,
    ) + (spec_u64_to_le_bytes(a.timestamp) + (spec_u64_to_le_bytes(a.nonce) + blob_bytes(
        a.prev_spell_hash,
    )))));
    let tail_b = chars_bytes(b.wizard.name) + (blob_bytes(b.wizard.public_key) + (string_bytes(
        b.magic_word,
    ) + (spec_u64_to_le_bytes(b.timestamp) + (spec_u64_to_le_bytes(b.nonce) + blob_bytes(
        b.prev_spell_hash,
    )))));
    assert(spell_encoding(a) =~= spec_u64_to_le_bytes(a.wizard.name.len() as u64) + tail_a);
    assert(spell_encoding(b) =~= spec_u64_to_le_bytes(b.wizard.name.len() as u64) + tail_b);
    lemma_concat_split(
        spec_u64_to_le_bytes(a.wizard.name.len() as u64),
        tail_a,
        spec_u64_to_le_bytes(b.wizard.name.len() as u64),
        tail_b,
    );
    assert(a.wizard.name.len() == b.wizard.name.len());
    let r2_a = blob_bytes(a.wizard.public_key) + (string_bytes(a.magic_word) + (
    spec_u64_to_le_bytes(a.timestamp) + (spec_u64_to_le_bytes(a.nonce) + blob_bytes(
        a.prev_spell_hash,
    ))));
    let r2_b = blob_bytes(b.wizard.public_key) + (string_bytes(b.magic_word) + (
    spec_u64_to_le_bytes(b.timestamp) + (spec_u64_to_le_bytes(b.nonce) + blob_bytes(
        b.prev_spell_hash,
    ))));
    lemma_concat_split(chars_bytes(a.wizard.name), r2_a, chars_bytes(b.wizard.name), r2_b);
    lemma_chars_bytes_injective(a.wizard.name, b.wizard.name);
    // the key blob
    let r3_a = string_bytes(a.magic_word) + (spec_u64_to_le_bytes(a.timestamp) + (
    spec_u64_to_le_bytes(a.nonce) + blob_bytes(a.prev_spell_hash)));
    let r3_b = string_bytes(b.magic_word) + (spec_u64_to_le_bytes(b.timestamp) + (
    spec_u64_to_le_bytes(b.nonce) + blob_bytes(b.prev_spell_hash)));
    assert(r2_a =~= spec_u64_to_le_bytes(a.wizard.public_key.len() as u64) + (a.wizard.public_key
        + r3_a));
    assert(r2_b =~= spec_u64_to_le_bytes(b.wizard.public_key.len() as u64) + (b.wizard.public_key
        + r3_b));
    lemma_concat_split(
        spec_u64_to_le_bytes(a.wizard.public_key.len() as u64),
        a.wizard.public_key + r3_a,
        spec_u64_to_le_bytes(b.wizard.public_key.len() as u64),
        b.wizard.public_key + r3_b,
    );
    assert(a.wizard.public_key.len() == b.wizard.public_key.len());
    lemma_concat_split(a.wizard.public_key, r3_a, b.wizard.public_key, r3_b);
    // the magic word: its length prefix, then its characters
    let r4_a = spec_u64_to_le_bytes(a.timestamp) + (spec_u64_to_le_bytes(a.nonce) + blob_bytes(
        a.prev_spell_hash,
    ));
    let r4_b = spec_u64_to_le_bytes(b.timestamp) + (spec_u64_to_le_bytes(b.nonce) + blob_bytes(
        b.prev_spell_hash,
    ));
    assert(r3_a =~= spec_u64_to_le_bytes(a.magic_word.len() as u64) + (chars_bytes(a.magic_word)
        + r4_a));
    assert(r3_b =~= spec_u64_to_le_bytes(b.magic_word.len() as u64) + (chars_bytes(b.magic_word)
        + r4_b));
    lemma_concat_split(
        spec_u64_to_le_bytes(a.magic_word.len() as u64),
        chars_bytes(a.magic_word) + r4_a,
        spec_u64_to_le_bytes(b.magic_word.len() as u64),
        chars_bytes(b.magic_word) + r4_b,
    );
    assert(a.magic_word.len() == b.magic_word.len());
    lemma_concat_split(chars_bytes(a.magic_word), r4_a, chars_bytes(b.magic_word), r4_b);
    lemma_chars_bytes_injective(a.magic_word, b.magic_word);
    // the two fixed-size counters
    let r5_a = spec_u64_to_le_bytes(a.nonce) + blob_bytes(a.prev_spell_hash);
    let r5_b = spec_u64_to_le_bytes(b.nonce) + blob_bytes(b.prev_spell_hash);
    lemma_concat_split(spec_u64_to_le_bytes(a.timestamp), r5_a, spec_u64_to_le_bytes(b.timestamp), r5_b);
    assert(a.timestamp == b.timestamp);
    lemma_concat_split(
        spec_u64_to_le_bytes(a.nonce),
        blob_bytes(a.prev_spell_hash),
        spec_u64_to_le_bytes(b.nonce),
        blob_bytes(b.prev_spell_hash),
    );
    assert(a.nonce == b.nonce);
    // the predecessor hash
    lemma_concat_split(
        spec_u64_to_le_bytes(a.prev_spell_hash.len() as u64),
        a.prev_spell_hash,
        spec_u64_to_le_bytes(b.prev_spell_hash.len() as u64),
        b.prev_spell_hash,
    );
    assert(a.wizard =~= b.wizard);
    assert(a =~= b);
}

/// The per-wizard index holds, under each recorded name, exactly the
/// subsequence of the chain cast under that name, in order: every listed
/// position points at a spell of that name, the positions are strictly
/// increasing, and every position of such a spell is listed.
pub proof fn lemma_index_consistency(book: MagicBook, k: int)
    requires
        book.wf(),
        0 <= k < book.wizard_spellbook@.len(),
    ensures
        forall|j: int|
            0 <= j < book.wizard_spellbook@[k].positions@.len()
                ==> (#[trigger] book.wizard_spellbook@[k].positions@[j]) < book.spells@.len()
                && book.spells@[book.wizard_spellbook@[k].positions@[j] as int].wizard.name@
                == book.wizard_spellbook@[k].name@,
        forall|j1: int, j2: int|
            0 <= j1 < j2 < book.wizard_spellbook@[k].positions@.len()
                ==> book.wizard_spellbook@[k].positions@[j1]
                < book.wizard_spellbook@[k].positions@[j2],
        forall|i: int|
            0 <= i < book.spells@.len() && (#[trigger] book.spells@[i]).wizard.name@
                == book.wizard_spellbook@[k].name@ ==> book.wizard_spellbook@[k].positions@
                .map_values((|p: usize| p as int)).contains(i),
{
    let r = book.wizard_spellbook@[k];
    let ps = positions_of(book.spells@, r.name@);
    assert(record_ok(book.spells@, r));
    lemma_positions_of_props(book.spells@, r.name@);
    assert forall|j: int|
        0 <= j < r.positions@.len() implies (#[trigger] r.positions@[j]) < book.spells@.len()
        && book.spells@[r.positions@[j] as int].wizard.name@ == r.name@ by {
        assert(r.positions@.map_values((|p: usize| p as int))[j] == r.positions@[j] as int);
        assert(ps[j] == r.positions@[j] as int);
    }
    assert forall|j1: int, j2: int|
        0 <= j1 < j2 < r.positions@.len() implies r.positions@[j1] < r.positions@[j2] by {
        assert(ps[j1] == r.positions@[j1] as int);
        assert(ps[j2] == r.positions@[j2] as int);
    }
}

/// Re-establishes well-formedness after a spell joins the chain and its
/// position joins an existing index record, that record having moved to the
/// end of the index.
proof fn lemma_add_spell_existing(pre: MagicBook, post: MagicBook, spell: Spell, fi: int)
    requires
        pre.wf(),
        spell_fits(spell@),
        0 <= fi < pre.wizard_spellbook@.len(),
        pre.wizard_spellbook@[fi].name@ == spell.wizard.name@,
        post.spells@ == pre.spells@.push(spell),
        post.wizard_spellbook@.len() == pre.wizard_spellbook@.len(),
        forall|j: int|
            0 <= j < pre.wizard_spellbook@.len() - 1 && j != fi
                ==> post.wizard_spellbook@[j] == pre.wizard_spellbook@[j],
        fi < pre.wizard_spellbook@.len() - 1 ==> post.wizard_spellbook@[fi]
            == pre.wizard_spellbook@.last(),
        post.wizard_spellbook@.last().name@ == spell.wizard.name@,
        post.wizard_spellbook@.last().positions@ == pre.wizard_spellbook@[fi].positions@.push(
            (pre.spells@.len() as usize),
        ),
        pre.spells@.len() <= usize::MAX,
    ensures
        post.wf(),
{
    let b0 = pre.wizard_spellbook@;
    let b1 = post.wizard_spellbook@;
    let ll = b0.len() as int;
    let nm = spell.wizard.name@;
    assert forall|n: Seq<char>| n != nm implies #[trigger] positions_of(post.spells@, n)
        == positions_of(pre.spells@, n) by {
        lemma_positions_of_push(pre.spells@, spell, n);
    }
    lemma_positions_of_push(pre.spells@, spell, nm);
    assert(positions_of(post.spells@, nm) == positions_of(pre.spells@, nm).push(
        pre.spells@.len() as int,
    ));
    // every slot of the new index holds a slot of the old one
    assert forall|k: int| 0 <= k < ll implies exists|j: int|
        0 <= j < ll && (#[trigger] b1[k]).name@ == b0[j].name@ && (k == ll - 1 || b1[k]
            == b0[j]) && (k == ll - 1 <==> j == fi) by {
        if k == ll - 1 {
            assert(b1[k].name@ == b0[fi].name@ && (k == ll - 1 <==> fi == fi));
        } else if k == fi {
            assert(b1[k] == b0[ll - 1] && b1[k].name@ == b0[ll - 1].name@);
            assert(ll - 1 != fi);
        } else {
            assert(b1[k] == b0[k] && b1[k].name@ == b0[k].name@);
        }
    }
    assert(post.spells_fit()) by {
        assert(forall|i: int|
            0 <= i < pre.spells@.len() ==> post.spells@[i] == pre.spells@[i]);
        assert(post.spells@.last() == spell);
    }
    assert(post.index_names_unique()) by {
        assert forall|k1: int, k2: int| 0 <= k1 < k2 < ll implies (#[trigger] b1[k1]).name@
            != (#[trigger] b1[k2]).name@ by {
            let j1 = choose|j: int|
                0 <= j < ll && b1[k1].name@ == b0[j].name@ && (k1 == ll - 1 || b1[k1] == b0[j])
                    && (k1 == ll - 1 <==> j == fi);
            let j2 = choose|j: int|
                0 <= j < ll && b1[k2].name@ == b0[j].name@ && (k2 == ll - 1 || b1[k2] == b0[j])
                    && (k2 == ll - 1 <==> j == fi);
            assert(j1 != j2);
        }
    }
    assert(post.index_records_ok()) by {
        assert forall|k: int| 0 <= k < ll implies record_ok(
            post.spells@,
            #[trigger] b1[k],
        ) by {
            if k == ll - 1 {
                assert(record_ok(pre.spells@, b0[fi]));
                assert(b1[k].positions@.map_values((|p: usize| p as int)) =~= b0[fi].positions@
                    .map_values((|p: usize| p as int)).push(pre.spells@.len() as int));
            } else {
                let j = choose|j: int|
                    0 <= j < ll && b1[k].name@ == b0[j].name@ && (k == ll - 1 || b1[k] == b0[j])
                        && (k == ll - 1 <==> j == fi);
                assert(record_ok(pre.spells@, b0[j]));
                assert(b0[j].name@ != b0[fi].name@);
                assert(positions_of(post.spells@, b1[k].name@) == positions_of(
                    pre.spells@,
                    b1[k].name@,
                ));
            }
        }
    }
    assert(post.index_complete()) by {
        assert forall|i: int| 0 <= i < post.spells@.len() implies post.has_record_for(
            (#[trigger] post.spells@[i]).wizard.name@,
        ) by {
            if i < pre.spells@.len() {
                assert(pre.has_record_for(pre.spells@[i].wizard.name@));
                let k0 = choose|k: int|
                    0 <= k < ll && (#[trigger] b0[k]).name@ == pre.spells@[i].wizard.name@;
                if k0 == fi {
                    assert((b1[ll - 1]).name@ == post.spells@[i].wizard.name@);
                } else if k0 == ll - 1 {
                    if fi < ll - 1 {
                        assert((b1[fi]).name@ == post.spells@[i].wizard.name@);
                    } else {
                        assert((b1[ll - 1]).name@ == post.spells@[i].wizard.name@);
                    }
                } else {
                    assert((b1[k0]).name@ == post.spells@[i].wizard.name@);
                }
            } else {
                assert((b1[ll - 1]).name@ == post.spells@[i].wizard.name@);
            }
        }
    }
}

/// Re-establishes well-formedness after a spell joins the chain under a name
/// the index had never seen, with a fresh record at the end of the index.
proof fn lemma_add_spell_fresh(pre: MagicBook, post: MagicBook, spell: Spell)
    requires
        pre.wf(),
        spell_fits(spell@),
        forall|j: int|
            0 <= j < pre.wizard_spellbook@.len() ==> (#[trigger] pre.wizard_spellbook@[j]).name@
                != spell.wizard.name@,
        post.spells@ == pre.spells@.push(spell),
        post.wizard_spellbook@.len() == pre.wizard_spellbook@.len() + 1,
        forall|j: int|
            0 <= j < pre.wizard_spellbook@.len() ==> post.wizard_spellbook@[j]
                == pre.wizard_spellbook@[j],
        post.wizard_spellbook@.last().name@ == spell.wizard.name@,
        post.wizard_spellbook@.last().positions@ == Seq::<usize>::empty().push(
            (pre.spells@.len() as usize),
        ),
        pre.spells@.len() <= usize::MAX,
    ensures
        post.wf(),
{
    let b0 = pre.wizard_spellbook@;
    let b1 = post.wizard_spellbook@;
    let ll = b0.len() as int;
    let nm = spell.wizard.name@;
    assert forall|n: Seq<char>| n != nm implies #[trigger] positions_of(post.spells@, n)
        == positions_of(pre.spells@, n) by {
        lemma_positions_of_push(pre.spells@, spell, n);
    }
    lemma_positions_of_push(pre.spells@, spell, nm);
    assert forall|i: int| 0 <= i < pre.spells@.len() implies (#[trigger] pre.spells@[i]).wizard.name@
        != nm by {
        if pre.spells@[i].wizard.name@ == nm {
            assert(pre.has_record_for(nm));
            let k = choose|k: int| 0 <= k < ll && (#[trigger] b0[k]).name@ == nm;
        }
    }
    lemma_positions_of_absent(pre.spells@, nm);
    assert(post.spells_fit()) by {
        assert(forall|i: int|
            0 <= i < pre.spells@.len() ==> post.spells@[i] == pre.spells@[i]);
        assert(post.spells@.last() == spell);
    }
    assert(post.index_names_unique());
    assert(post.index_records_ok()) by {
        assert forall|k: int| 0 <= k < ll + 1 implies record_ok(
            post.spells@,
            #[trigger] b1[k],
        ) by {
            if k == ll {
                assert(b1[k].positions@.map_values((|p: usize| p as int)) =~= positions_of(
                    pre.spells@,
                    nm,
                ).push(pre.spells@.len() as int));
            } else {
                assert(b1[k] == b0[k]);
                assert(record_ok(pre.spells@, b0[k]));
                assert(positions_of(post.spells@, b1[k].name@) == positions_of(
                    pre.spells@,
                    b1[k].name@,
                ));
            }
        }
    }
    assert(post.index_complete()) by {
        assert forall|i: int| 0 <= i < post.spells@.len() implies post.has_record_for(
            (#[trigger] post.spells@[i]).wizard.name@,
        ) by {
            if i < pre.spells@.len() {
                assert(pre.has_record_for(pre.spells@[i].wizard.name@));
                let k0 = choose|k: int|
                    0 <= k < ll && (#[trigger] b0[k]).name@ == pre.spells@[i].wizard.name@;
                assert((b1[k0]).name@ == post.spells@[i].wizard.name@);
            } else {
                assert((b1[ll]).name@ == post.spells@[i].wizard.name@);
            }
        }
    }
}

} // verus!
