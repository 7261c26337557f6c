//! The binary dictionary: a fixed header, an open-addressed table of slots
//! and a pool of NUL-terminated words, all in one block of bytes that is
//! never changed after loading.

use crate::utils::{djb2, djb2_hash, fast_str_eq};
use memmap2::Mmap;
use vstd::prelude::*;

verus! {

/// Bytes of the header at the start of a dictionary.
pub const HEADER_SIZE: usize = 32;

/// Bytes of one slot of the table.
pub const ENTRY_SIZE: usize = 8;

/// The header of a dictionary. The two costs are IEEE-754 single-precision
/// numbers, held as their bit patterns.
#[derive(Debug, Clone, Copy)]
pub struct KDictHeader {
    pub magic: [u8; 4],
    pub version: u32,
    pub num_entries: u32,
    pub table_size: u32,
    pub default_cost: u32,
    pub unknown_cost: u32,
    pub max_word_length: u32,
    pub padding: u32,
}

/// One slot of the table: where the word starts in the pool (0 for an empty
/// slot) and the bit pattern of its cost.
#[derive(Debug, Clone, Copy)]
pub struct KDictEntry {
    pub name_offset: u32,
    pub cost: u32,
}

/// Why a block of bytes is not a dictionary.
#[derive(Debug, Clone, Copy, PartialEq, Eq)]
pub enum KDictError {
    /// Shorter than a header.
    FileTooSmall,
    /// Does not start with `KDIC`.
    InvalidMagic,
    /// Too short for the table that the header announces.
    Truncated,
    /// The bytes could not be read.
    IoError,
}

/// What to tell a person about the error.
pub open spec fn error_text(e: KDictError) -> Seq<char> {
    match e {
        KDictError::FileTooSmall => "File too small"@,
        KDictError::InvalidMagic => "Invalid magic"@,
        KDictError::Truncated => "File truncated"@,
        KDictError::IoError => "I/O error"@,
    }
}

impl KDictError {
    /// A short description of the error.
    pub fn message(&self) -> (r: &'static str)
        ensures
            r@ == error_text(*self),
    {
        match self {
            KDictError::FileTooSmall => "File too small",
            KDictError::InvalidMagic => "Invalid magic",
            KDictError::Truncated => "File truncated",
            KDictError::IoError => "I/O error",
        }
    }
}

/// `memmap2::Mmap`: a read-only memory map. Nothing of its inside is known
/// here but what `mmap_contents` names.
#[verifier::external_type_specification]
#[verifier::external_body]
pub struct ExMmap(Mmap);

/// The bytes of the region that a memory map covers. A map is made once and
/// read-only; whoever maps a file promises, as `memmap2` asks, that the file
/// is not changed while the map lives.
pub uninterp spec fn mmap_contents(m: Mmap) -> Seq<u8>;

/// `<memmap2::Mmap as Deref>::deref`, which hands out the mapped region as
/// one slice of bytes, from its first byte to its last. Not proved here:
/// that the slice holds the contents of the map.
#[verifier::external_body]
fn mmap_bytes(m: &Mmap) -> (b: &[u8])
    ensures
        b@ == mmap_contents(*m),
{
    &m[..]
}

/// Where the bytes of a dictionary live.
#[derive(Debug)]
pub enum DataSource {
    Mmap(Mmap),
    Owned(Vec<u8>),
}

impl DataSource {
    /// The bytes of the source.
    pub open spec fn bytes(&self) -> Seq<u8> {
        match self {
            DataSource::Mmap(m) => mmap_contents(*m),
            DataSource::Owned(v) => v@,
        }
    }

    /// The bytes of the source, as a slice.
    pub fn as_slice(&self) -> (b: &[u8])
        ensures
            b@ == self.bytes(),
    {
        match self {
            DataSource::Mmap(m) => mmap_bytes(m),
            DataSource::Owned(v) => v.as_slice(),
        }
    }

    /// Number of bytes of the source.
    pub fn len(&self) -> (n: usize)
        ensures
            n == self.bytes().len(),
    {
        self.as_slice().len()
    }
}

/// The little-endian 32-bit word at `b[at..at + 4]`.
pub open spec fn u32_le(b: Seq<u8>, at: int) -> u32 {
    (b[at] as int + b[at + 1] as int * 0x100 + b[at + 2] as int * 0x1_0000 + b[at + 3] as int
        * 0x100_0000) as u32
}

/// Reads the little-endian 32-bit word at `b[at..at + 4]`.
pub fn read_u32_le(b: &[u8], at: usize) -> (r: u32)
    requires
        at + 4 <= b.len(),
    ensures
        r == u32_le(b@, at as int),
{
    let b0: u32 = b[at] as u32;
    let b1: u32 = b[at + 1] as u32;
    let b2: u32 = b[at + 2] as u32;
    let b3: u32 = b[at + 3] as u32;
    b0 + b1 * 0x100 + b2 * 0x1_0000 + b3 * 0x100_0000
}

/// The header that the first 32 bytes of `b` spell.
pub open spec fn parse_header(b: Seq<u8>) -> KDictHeader {
    KDictHeader {
        magic: [b[0], b[1], b[2], b[3]],
        version: u32_le(b, 4),
        num_entries: u32_le(b, 8),
        table_size: u32_le(b, 12),
        default_cost: u32_le(b, 16),
        unknown_cost: u32_le(b, 20),
        max_word_length: u32_le(b, 24),
        padding: u32_le(b, 28),
    }
}

/// `b` starts with the four ASCII letters `KDIC`.
pub open spec fn has_magic(b: Seq<u8>) -> bool {
    b.len() >= 4 && b[0] == 0x4B && b[1] == 0x44 && b[2] == 0x49 && b[3] == 0x43
}

/// Why `b` is refused as a dictionary, if it is.
pub open spec fn load_error(b: Seq<u8>) -> Option<KDictError> {
    if b.len() < HEADER_SIZE {
        Some(KDictError::FileTooSmall)
    } else if !has_magic(b) {
        Some(KDictError::InvalidMagic)
    } else if HEADER_SIZE + u32_le(b, 12) as int * ENTRY_SIZE > b.len() {
        Some(KDictError::Truncated)
    } else {
        None
    }
}

/// The probe mask of a table of `table_size` slots: the size less one, all
/// bits where there is no slot.
pub open spec fn mask_of(table_size: u32) -> u32 {
    if table_size == 0 {
        0xFFFF_FFFFu32
    } else {
        (table_size - 1) as u32
    }
}

/// The slot with the given index in the table of the dictionary bytes `b`.
pub open spec fn entry_at(b: Seq<u8>, slot: int) -> KDictEntry {
    KDictEntry {
        name_offset: u32_le(b, HEADER_SIZE + slot * ENTRY_SIZE),
        cost: u32_le(b, HEADER_SIZE + slot * ENTRY_SIZE + 4),
    }
}

/// The word stored at `offset` of the pool is `word`: its bytes stand there
/// and a NUL follows them.
pub open spec fn stored_is(pool: Seq<u8>, offset: u32, word: Seq<u8>) -> bool {
    &&& offset + word.len() < pool.len()
    &&& pool.subrange(offset as int, offset + word.len()) == word
    &&& pool[offset + word.len()] == 0
}

/// Index of the first NUL of `pool` at or behind `at`, or the pool's length.
pub open spec fn word_end(pool: Seq<u8>, at: int) -> int
    decreases pool.len() - at,
{
    if 0 <= at < pool.len() && pool[at] != 0 {
        word_end(pool, at + 1)
    } else {
        at
    }
}

/// A loaded dictionary.
pub struct KDict {
    source: DataSource,
    header: KDictHeader,
    table: usize,
    string_pool: usize,
    table_mask: u32,
}

impl KDict {
    /// All bytes of the dictionary.
    pub closed spec fn bytes(&self) -> Seq<u8> {
        self.source.bytes()
    }

    /// The header.
    pub closed spec fn spec_header(&self) -> KDictHeader {
        self.header
    }

    /// The probe mask: the table size less one.
    pub closed spec fn spec_table_mask(&self) -> u32 {
        self.table_mask
    }

    /// The bytes form a dictionary and the fields say what the bytes say.
    #[verifier::type_invariant]
    pub closed spec fn wf(&self) -> bool {
        &&& load_error(self.source.bytes()) is None
        &&& self.header == parse_header(self.source.bytes())
        &&& self.table == HEADER_SIZE
        &&& self.string_pool == HEADER_SIZE + self.header.table_size * ENTRY_SIZE
        &&& self.table_mask == mask_of(self.header.table_size)
    }

    /// What being well-formed says of a dictionary: its bytes pass the
    /// checks of loading, its header is the one they spell, and its probe
    /// mask is the table size less one.
    pub proof fn lemma_wf(&self)
        requires
            self.wf(),
        ensures
            load_error(self.bytes()) is None,
            self.spec_header() == parse_header(self.bytes()),
            self.spec_table_mask() == mask_of(self.spec_header().table_size),
    {
    }

    /// Number of slots.
    pub open spec fn table_size(&self) -> nat {
        self.spec_header().table_size as nat
    }

    /// The slot with the given index.
    pub open spec fn entry(&self, slot: int) -> KDictEntry {
        entry_at(self.bytes(), slot)
    }

    /// The string pool: everything behind the table.
    pub open spec fn pool(&self) -> Seq<u8> {
        self.bytes().skip(HEADER_SIZE + self.table_size() * ENTRY_SIZE)
    }

    /// The slot probed after `slot`.
    pub open spec fn next_slot(&self, slot: u32) -> u32 {
        ((slot + 1) as u32) & self.spec_table_mask()
    }

    /// What probing for `word` from `slot` on finds within `fuel` slots: the
    /// cost of the first slot that holds `word`, unless an empty slot comes
    /// first.
    pub open spec fn probe(&self, word: Seq<u8>, slot: u32, fuel: nat) -> Option<u32>
        decreases fuel,
    {
        if fuel == 0 {
            None
        } else if self.entry(slot as int).name_offset == 0 {
            None
        } else if stored_is(self.pool(), self.entry(slot as int).name_offset, word) {
            Some(self.entry(slot as int).cost)
        } else {
            self.probe(word, self.next_slot(slot), (fuel - 1) as nat)
        }
    }

    /// What a search for `word` finds that starts at the slot which `hash`
    /// gives under the mask and visits at most as many slots as the table
    /// has.
    pub open spec fn lookup_from(&self, word: Seq<u8>, hash: u32) -> Option<u32> {
        if self.table_size() == 0 {
            None
        } else {
            self.probe(word, hash & self.spec_table_mask(), self.table_size())
        }
    }

    /// The cost that the dictionary gives `word`, if it holds it: the
    /// search starts at the hash of `word`.
    pub open spec fn lookup_spec(&self, word: Seq<u8>) -> Option<u32> {
        self.lookup_from(word, djb2(word))
    }

    /// The slot probed `k` steps after `start`.
    pub open spec fn probe_slot(&self, start: u32, k: nat) -> u32
        decreases k,
    {
        if k == 0 {
            start
        } else {
            self.next_slot(self.probe_slot(start, (k - 1) as nat))
        }
    }

    /// The slot holds `word`.
    pub open spec fn hits(&self, slot: u32, word: Seq<u8>) -> bool {
        self.entry(slot as int).name_offset != 0 && stored_is(
            self.pool(),
            self.entry(slot as int).name_offset,
            word,
        )
    }

    /// The slot holds a word, and not `word`: probing goes on behind it.
    pub open spec fn passes(&self, slot: u32, word: Seq<u8>) -> bool {
        self.entry(slot as int).name_offset != 0 && !stored_is(
            self.pool(),
            self.entry(slot as int).name_offset,
            word,
        )
    }

    /// Probing from `start` comes to the slot `k` steps on, and that slot is
    /// the first on the way to hold `word`: every slot before it holds
    /// another word.
    pub open spec fn first_hit(&self, word: Seq<u8>, start: u32, k: nat) -> bool {
        &&& self.hits(self.probe_slot(start, k), word)
        &&& forall|j: nat| j < k ==> self.passes(#[trigger] self.probe_slot(start, j), word)
    }

    /// Stepping once and then `k` times is stepping `k + 1` times.
    pub proof fn lemma_probe_slot_shift(&self, start: u32, k: nat)
        ensures
            self.probe_slot(self.next_slot(start), k) == self.probe_slot(start, k + 1),
        decreases k,
    {
        assert(self.probe_slot(start, k + 1) == self.next_slot(
            self.probe_slot(start, ((k + 1) - 1) as nat),
        ));
        if k > 0 {
            self.lemma_probe_slot_shift(start, (k - 1) as nat);
        } else {
            assert(self.probe_slot(start, 0) == start);
        }
    }

    /// Probing finds a cost exactly where, within the slots it may visit,
    /// a first slot holds the word, with no empty slot before it; the cost
    /// is that slot's. Where the slots lie and in what order words were put
    /// into them plays no part beyond that.
    pub proof fn lemma_probe_first_hit(&self, word: Seq<u8>, start: u32, fuel: nat)
        ensures
            self.probe(word, start, fuel) is Some <==> exists|k: nat|
                k < fuel && self.first_hit(word, start, k),
            forall|k: nat|
                k < fuel && #[trigger] self.first_hit(word, start, k) ==> self.probe(
                    word,
                    start,
                    fuel,
                ) == Some(self.entry(self.probe_slot(start, k) as int).cost),
        decreases fuel,
    {
        if fuel == 0 {
        } else if self.entry(start as int).name_offset == 0 {
            assert forall|k: nat| k < fuel implies !self.first_hit(word, start, k) by {
                if k == 0 {
                } else {
                    assert(self.probe_slot(start, 0) == start);
                    if self.first_hit(word, start, k) {
                        assert(self.passes(self.probe_slot(start, 0), word));
                    }
                }
            }
        } else if stored_is(self.pool(), self.entry(start as int).name_offset, word) {
            assert(self.first_hit(word, start, 0));
            assert forall|k: nat| k < fuel && #[trigger] self.first_hit(word, start, k) implies k
                == 0 by {
                if k > 0 {
                    assert(self.passes(self.probe_slot(start, 0), word));
                }
            }
        } else {
            let next = self.next_slot(start);
            let less = (fuel - 1) as nat;
            self.lemma_probe_first_hit(word, next, less);
            assert forall|k: nat| self.first_hit(word, next, k) implies self.first_hit(
                word,
                start,
                k + 1,
            ) by {
                self.lemma_probe_slot_shift(start, k);
                assert forall|j: nat| j < k + 1 implies self.passes(
                    #[trigger] self.probe_slot(start, j),
                    word,
                ) by {
                    if j > 0 {
                        self.lemma_probe_slot_shift(start, (j - 1) as nat);
                        assert(self.passes(self.probe_slot(next, (j - 1) as nat), word));
                    }
                }
            }
            assert forall|k: nat| k > 0 && self.first_hit(word, start, k) implies self.first_hit(
                word,
                next,
                (k - 1) as nat,
            ) by {
                self.lemma_probe_slot_shift(start, (k - 1) as nat);
                assert forall|j: nat| j < k - 1 implies self.passes(
                    #[trigger] self.probe_slot(next, j),
                    word,
                ) by {
                    self.lemma_probe_slot_shift(start, j);
                    assert(self.passes(self.probe_slot(start, j + 1), word));
                }
            }
            assert(!self.first_hit(word, start, 0));
            if self.probe(word, start, fuel) is Some {
                let k = choose|k: nat| k < less && self.first_hit(word, next, k);
                assert(self.first_hit(word, start, k + 1));
            }
            if exists|k: nat| k < fuel && self.first_hit(word, start, k) {
                let k = choose|k: nat| k < fuel && self.first_hit(word, start, k);
                assert(self.first_hit(word, next, (k - 1) as nat));
            }
            assert forall|k: nat| k < fuel && #[trigger] self.first_hit(word, start, k) implies
                self.probe(word, start, fuel) == Some(
                self.entry(self.probe_slot(start, k) as int).cost,
            ) by {
                assert(self.first_hit(word, next, (k - 1) as nat));
                self.lemma_probe_slot_shift(start, (k - 1) as nat);
            }
        }
    }

    /// A lookup finds a word exactly where probing from the word's hash
    /// comes, over slots that hold other words, to a slot that holds it,
    /// within as many steps as the table has slots; it then gives that
    /// slot's cost.
    pub proof fn lemma_lookup_first_hit(&self, word: Seq<u8>)
        ensures
            self.lookup_spec(word) is Some <==> exists|k: nat|
                k < self.table_size() && self.first_hit(
                    word,
                    djb2(word) & self.spec_table_mask(),
                    k,
                ),
            forall|k: nat|
                k < self.table_size() && #[trigger] self.first_hit(
                    word,
                    djb2(word) & self.spec_table_mask(),
                    k,
                ) ==> self.lookup_spec(word) == Some(
                    self.entry(
                        self.probe_slot(djb2(word) & self.spec_table_mask(), k) as int,
                    ).cost,
                ),
    {
        self.lemma_probe_first_hit(
            word,
            djb2(word) & self.spec_table_mask(),
            self.table_size(),
        );
    }

    /// Some slot of the table holds `word` at the cost `c`.
    pub open spec fn holds(&self, word: Seq<u8>, c: u32) -> bool {
        exists|t: u32|
            t < self.table_size() && #[trigger] self.hits(t, word) && self.entry(t as int).cost
                == c
    }

    /// The table is laid out for probing: every slot that holds a word is
    /// the first slot to hold it on the way from the word's hash, and no
    /// empty slot lies before it on that way. How colliding words share
    /// out the slots among them is left open.
    pub open spec fn laid_out(&self) -> bool {
        forall|t: u32, word: Seq<u8>|
            t < self.table_size() && #[trigger] self.hits(t, word) ==> exists|k: nat|
                k < self.table_size() && #[trigger] self.first_hit(
                    word,
                    djb2(word) & self.spec_table_mask(),
                    k,
                ) && self.probe_slot(djb2(word) & self.spec_table_mask(), k) == t
    }

    /// The two dictionaries give unknowns and acronyms the same costs, have
    /// the same longest word, and give every word the same cost or none.
    pub open spec fn agrees_with(&self, other: &KDict) -> bool {
        &&& self.spec_header().default_cost == other.spec_header().default_cost
        &&& self.spec_header().unknown_cost == other.spec_header().unknown_cost
        &&& self.spec_header().max_word_length == other.spec_header().max_word_length
        &&& forall|word: Seq<u8>| #[trigger] self.lookup_spec(word) == other.lookup_spec(word)
    }

    /// Probing stays within the table.
    pub proof fn lemma_probe_slot_bound(&self, start: u32, k: nat)
        requires
            start <= self.spec_table_mask(),
        ensures
            self.probe_slot(start, k) <= self.spec_table_mask(),
        decreases k,
    {
        if k > 0 {
            self.lemma_probe_slot_bound(start, (k - 1) as nat);
            let x = self.probe_slot(start, (k - 1) as nat);
            let m = self.spec_table_mask();
            let y = (x + 1) as u32;
            assert(y & m <= m) by (bit_vector);
        }
    }

    /// In a table laid out for probing, a word is found exactly where it is
    /// stored, at the cost it is stored with, whatever slots hold the words
    /// that collide with it.
    pub proof fn lemma_found_iff_stored(&self, word: Seq<u8>, c: u32)
        requires
            self.wf(),
            self.laid_out(),
        ensures
            self.lookup_spec(word) == Some(c) <==> self.holds(word, c),
    {
        let start = djb2(word) & self.spec_table_mask();
        let m = self.spec_table_mask();
        let hash = djb2(word);
        assert(hash & m <= m) by (bit_vector);
        self.lemma_lookup_first_hit(word);
        self.lemma_wf();
        if self.holds(word, c) {
            let t = choose|t: u32|
                t < self.table_size() && #[trigger] self.hits(t, word) && self.entry(
                    t as int,
                ).cost == c;
            let k = choose|k: nat|
                k < self.table_size() && #[trigger] self.first_hit(word, start, k)
                    && self.probe_slot(start, k) == t;
            assert(self.lookup_spec(word) == Some(c));
        }
        if self.lookup_spec(word) == Some(c) {
            let k = choose|k: nat| k < self.table_size() && self.first_hit(word, start, k);
            let t = self.probe_slot(start, k);
            self.lemma_probe_slot_bound(start, k);
            assert(t < self.table_size());
            assert(self.hits(t, word));
            assert(self.holds(word, c));
        }
    }

    /// Two tables laid out for probing that store the same words at the
    /// same costs find the same words, wherever each keeps them.
    pub proof fn lemma_layouts_agree(&self, other: &KDict)
        requires
            self.wf(),
            other.wf(),
            self.laid_out(),
            other.laid_out(),
            forall|word: Seq<u8>, c: u32| #[trigger] self.holds(word, c) == other.holds(word, c),
        ensures
            forall|word: Seq<u8>| #[trigger] self.lookup_spec(word) == other.lookup_spec(word),
    {
        assert forall|word: Seq<u8>| #[trigger] self.lookup_spec(word) == other.lookup_spec(
            word,
        ) by {
            match self.lookup_spec(word) {
                Some(c) => {
                    self.lemma_found_iff_stored(word, c);
                    other.lemma_found_iff_stored(word, c);
                    assert(self.holds(word, c) == other.holds(word, c));
                },
                None => {
                    match other.lookup_spec(word) {
                        Some(c) => {
                            self.lemma_found_iff_stored(word, c);
                            other.lemma_found_iff_stored(word, c);
                            assert(self.holds(word, c) == other.holds(word, c));
                        },
                        None => {},
                    }
                },
            }
        }
    }

    /// The word stored at `offset` of the pool, without its NUL.
    pub open spec fn stored_word(&self, offset: u32) -> Seq<u8> {
        if offset < self.pool().len() {
            self.pool().subrange(offset as int, word_end(self.pool(), offset as int))
        } else {
            Seq::empty()
        }
    }

    /// Takes a dictionary from bytes held in memory.
    pub fn from_bytes(bytes: Vec<u8>) -> (r: Result<KDict, KDictError>)
        ensures
            match r {
                Ok(d) => load_error(bytes@) is None && d.wf() && d.bytes() == bytes@
                    && d.spec_header() == parse_header(bytes@) && d.spec_table_mask() == mask_of(
                    parse_header(bytes@).table_size,
                ),
                Err(e) => load_error(bytes@) == Some(e),
            },
    {
        KDict::from_source(DataSource::Owned(bytes))
    }

    /// Takes a dictionary from a source of bytes, after checking the magic
    /// number and that header and table fit in the bytes.
    pub fn from_source(source: DataSource) -> (r: Result<KDict, KDictError>)
        ensures
            match r {
                Ok(d) => load_error(source.bytes()) is None && d.wf() && d.bytes()
                    == source.bytes() && d.spec_header() == parse_header(source.bytes())
                    && d.spec_table_mask() == mask_of(parse_header(source.bytes()).table_size),
                Err(e) => load_error(source.bytes()) == Some(e),
            },
    {
        let data = source.as_slice();
        if data.len() < HEADER_SIZE {
            return Err(KDictError::FileTooSmall);
        }
        if !(data[0] == 0x4B && data[1] == 0x44 && data[2] == 0x49 && data[3] == 0x43) {
            return Err(KDictError::InvalidMagic);
        }
        let header = KDictHeader {
            magic: [data[0], data[1], data[2], data[3]],
            version: read_u32_le(data, 4),
            num_entries: read_u32_le(data, 8),
            table_size: read_u32_le(data, 12),
            default_cost: read_u32_le(data, 16),
            unknown_cost: read_u32_le(data, 20),
            max_word_length: read_u32_le(data, 24),
            padding: read_u32_le(data, 28),
        };
        let table_bytes: u64 = header.table_size as u64 * 8;
        if table_bytes + 32 > data.len() as u64 {
            return Err(KDictError::Truncated);
        }
        let string_pool: usize = HEADER_SIZE + header.table_size as usize * ENTRY_SIZE;
        let table_mask: u32 = if header.table_size == 0 {
            0xFFFF_FFFF
        } else {
            header.table_size - 1
        };
        assert(header.magic@ =~= parse_header(data@).magic@);
        assert(header == parse_header(data@));
        Ok(KDict { source, header, table: HEADER_SIZE, string_pool, table_mask })
    }

    /// The header.
    pub fn header(&self) -> (h: KDictHeader)
        ensures
            h == self.spec_header(),
            h == parse_header(self.bytes()),
    {
        proof {
            use_type_invariant(self);
        }
        self.header
    }

    /// The probe mask: the table size less one.
    pub fn table_mask(&self) -> (m: u32)
        ensures
            m == self.spec_table_mask(),
            m == mask_of(self.spec_header().table_size),
    {
        proof {
            use_type_invariant(self);
        }
        self.table_mask
    }

    /// All bytes of the dictionary.
    pub fn as_bytes(&self) -> (b: &[u8])
        ensures
            b@ == self.bytes(),
    {
        self.source.as_slice()
    }

    /// The slot with index `slot`.
    pub fn get_entry(&self, slot: u32) -> (e: KDictEntry)
        requires
            slot < self.table_size(),
        ensures
            e == self.entry(slot as int),
    {
        proof {
            use_type_invariant(self);
        }
        let data = self.source.as_slice();
        let at: usize = self.table + slot as usize * ENTRY_SIZE;
        KDictEntry { name_offset: read_u32_le(data, at), cost: read_u32_le(data, at + 4) }
    }

    /// The pool from `offset` on; empty where `offset` is behind the pool.
    pub fn get_pool_ptr(&self, offset: u32) -> (r: &[u8])
        ensures
            r@ == (if offset <= self.pool().len() {
                self.pool().skip(offset as int)
            } else {
                Seq::empty()
            }),
    {
        proof {
            use_type_invariant(self);
        }
        let data = self.source.as_slice();
        let n = data.len();
        let pool_len: usize = n - self.string_pool;
        if offset as usize > pool_len {
            let r = &data[n..n];
            assert(r@ =~= Seq::<u8>::empty());
            r
        } else {
            let from: usize = self.string_pool + offset as usize;
            let r = &data[from..n];
            assert(r@ =~= self.pool().skip(offset as int));
            r
        }
    }

    /// The word stored at `offset` of the pool, up to its NUL.
    pub fn get_pool_bytes(&self, offset: u32) -> (r: &[u8])
        ensures
            r@ == self.stored_word(offset),
    {
        let rest = self.get_pool_ptr(offset);
        let ghost pool = self.pool();
        if rest.len() == 0 {
            assert(self.stored_word(offset) =~= Seq::<u8>::empty());
            return rest;
        }
        let mut len: usize = 0;
        while len < rest.len() && rest[len] != 0
            invariant
                0 <= len <= rest.len(),
                offset <= pool.len(),
                rest@ == pool.skip(offset as int),
                word_end(pool, offset as int) == word_end(pool, offset + len),
            decreases rest.len() - len,
        {
            assert(rest@[len as int] == pool[offset + len]);
            len += 1;
        }
        proof {
            if len < rest.len() {
                assert(rest@[len as int] == pool[offset + len]);
            }
            assert(word_end(pool, offset + len) == offset + len);
        }
        let r = &rest[0..len];
        assert(r@ =~= self.stored_word(offset));
        r
    }

    /// Whether the word stored at `offset` of the pool is `text[start..end]`.
    fn stored_equals(&self, offset: u32, text: &[u8], start: usize, end: usize) -> (r: bool)
        requires
            start <= end <= text.len(),
        ensures
            r == stored_is(self.pool(), offset, text@.subrange(start as int, end as int)),
    {
        proof {
            use_type_invariant(self);
        }
        let data = self.source.as_slice();
        let pool_len: usize = data.len() - self.string_pool;
        let len: usize = end - start;
        if offset as usize >= pool_len || len >= pool_len - offset as usize {
            return false;
        }
        let from: usize = self.string_pool + offset as usize;
        let stored = &data[from..from + len];
        let word = &text[start..end];
        assert(stored@ =~= self.pool().subrange(offset as int, offset + len));
        assert(stored@.take(len as int) =~= stored@);
        assert(word@.take(len as int) =~= word@);
        assert(data@[from + len] == self.pool()[offset + len]);
        fast_str_eq(stored, word, len) && data[from + len] == 0
    }

    /// Searches for `text[start..end]` from the slot that `hash` gives. With
    /// the hash of those bytes, this is the lookup.
    pub fn lookup_hashed(&self, text: &[u8], start: usize, end: usize, hash: u32) -> (r: Option<
        u32,
    >)
        requires
            start <= end <= text.len(),
        ensures
            r == self.lookup_from(text@.subrange(start as int, end as int), hash),
    {
        proof {
            use_type_invariant(self);
        }
        let ghost word = text@.subrange(start as int, end as int);
        let size = self.header.table_size;
        if size == 0 {
            return None;
        }
        let mask = self.table_mask;
        let mut slot: u32 = masked(hash, mask);
        let mut fuel: u32 = size;
        while fuel > 0
            invariant
                self.wf(),
                size == self.header.table_size,
                mask == self.table_mask,
                size > 0,
                slot <= mask,
                start <= end <= text.len(),
                word == text@.subrange(start as int, end as int),
                self.probe(word, slot, fuel as nat) == self.lookup_from(word, hash),
            decreases fuel,
        {
            let e = self.get_entry(slot);
            if e.name_offset == 0 {
                return None;
            }
            if self.stored_equals(e.name_offset, text, start, end) {
                return Some(e.cost);
            }
            slot = masked(slot + 1, mask);
            fuel -= 1;
        }
        None
    }

    /// The cost of `word` in the dictionary, if the dictionary holds it.
    pub fn lookup(&self, word: &[u8]) -> (r: Option<u32>)
        ensures
            r == self.lookup_spec(word@),
    {
        assert(word@.subrange(0, word.len() as int) =~= word@);
        self.lookup_hashed(word, 0, word.len(), djb2_hash(word))
    }
}

/// `x` under the mask `m`; the result is never above the mask.
pub fn masked(x: u32, m: u32) -> (r: u32)
    ensures
        r == x & m,
        r <= m,
{
    assert(x & m <= m) by (bit_vector);
    x & m
}

} // verus!
