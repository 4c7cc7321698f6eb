use vstd::prelude::*;

verus! {

/// A map from path string to 64-bit content hash, backed by a hash map.
/// Two of these exist during a run: the immutable snapshot loaded from the
/// cache file, and the current store that the executor fills.
#[verifier::external_body]
pub struct HashStore {
    map: hashbrown::HashMap<String, u64>,
}

/// What the store holds: a map from path to content hash.
pub uninterp spec fn store_map(h: HashStore) -> Map<Seq<char>, u64>;

impl HashStore {
    /// Relies on hashbrown::HashMap::new: a new store is empty.
    #[verifier::external_body]
    fn ht_new() -> (r: HashStore)
        ensures
            store_map(r).dom() == Set::<Seq<char>>::empty(),
    {
        HashStore { map: hashbrown::HashMap::new() }
    }

    /// Relies on hashbrown::HashMap::get: the hash stored under `p`, if any.
    #[verifier::external_body]
    fn ht_get(&self, p: &str) -> (r: Option<u64>)
        ensures
            (r is Some) == store_map(*self).contains_key(p@),
            r matches Some(h) ==> h == store_map(*self)[p@],
    {
        self.map.get(p).copied()
    }

    /// Relies on hashbrown::HashMap::insert: the entry for `p` is set to
    /// `h` and every other entry is kept.
    #[verifier::external_body]
    fn ht_insert(&mut self, p: String, h: u64)
        ensures
            store_map(*final(self)) == store_map(*old(self)).insert(p@, h),
    {
        self.map.insert(p, h);
    }

    /// Relies on hashbrown::HashMap::is_empty: true iff the store holds no
    /// entry.
    #[verifier::external_body]
    fn ht_is_empty(&self) -> (r: bool)
        ensures
            r == (store_map(*self).dom() == Set::<Seq<char>>::empty()),
    {
        self.map.is_empty()
    }

    /// Relies on hashbrown::HashMap::clone: the copy holds the same entries.
    #[verifier::external_body]
    fn ht_clone(&self) -> (r: HashStore)
        ensures
            store_map(r) == store_map(*self),
    {
        HashStore { map: self.map.clone() }
    }

    /// An empty store.
    pub fn empty() -> (r: HashStore)
        ensures
            store_map(r).dom() == Set::<Seq<char>>::empty(),
    {
        HashStore::ht_new()
    }

    /// Insert or overwrite the hash recorded for `p`.
    pub fn add(&mut self, p: String, h: u64)
        ensures
            store_map(*final(self)) == store_map(*old(self)).insert(p@, h),
    {
        self.ht_insert(p, h);
    }

    /// The hash recorded for `p`, if any.
    pub fn lookup(&self, p: &str) -> (r: Option<u64>)
        ensures
            (r is Some) == store_map(*self).contains_key(p@),
            r matches Some(h) ==> h == store_map(*self)[p@],
    {
        self.ht_get(p)
    }

    /// True iff no hash is recorded.
    pub fn is_empty(&self) -> (r: bool)
        ensures
            r == (store_map(*self).dom() == Set::<Seq<char>>::empty()),
    {
        self.ht_is_empty()
    }

    /// A copy holding the same entries.
    pub fn duplicate(&self) -> (r: HashStore)
        ensures
            store_map(r) == store_map(*self),
    {
        self.ht_clone()
    }
}

/// One step of the 64-bit FNV-1a hash: xor the byte in, then multiply by
/// the FNV prime, wrapping.
pub open spec fn fnv1a_step(h: u64, b: u8) -> u64 {
    vstd::wrapping::u64_specs::wrapping_mul(h ^ (b as u64), 0x100000001b3u64)
}

/// The 64-bit FNV-1a hash of a byte sequence.
pub open spec fn fnv1a_of(bytes: Seq<u8>) -> u64
    decreases bytes.len(),
{
    if bytes.len() == 0 {
        0xcbf29ce484222325u64
    } else {
        fnv1a_step(fnv1a_of(bytes.drop_last()), bytes.last())
    }
}

/// The content hash the engine uses: 64-bit FNV-1a over the file's bytes.
/// It is a deterministic function of the byte sequence, so an unchanged
/// file keeps its hash across runs.
pub fn hash_bytes(bytes: &Vec<u8>) -> (h: u64)
    ensures
        h == fnv1a_of(bytes@),
{
    let mut h: u64 = 0xcbf29ce484222325u64;
    let mut i: usize = 0;
    while i < bytes.len()
        invariant
            i <= bytes.len(),
            h == fnv1a_of(bytes@.take(i as int)),
        decreases bytes.len() - i,
    {
        h = (h ^ (bytes[i] as u64)).wrapping_mul(0x100000001b3u64);
        proof {
            assert(bytes@.take(i + 1 as int).drop_last() =~= bytes@.take(i as int));
            assert(bytes@.take(i + 1 as int).last() == bytes@[i as int]);
        }
        i = i + 1;
    }
    proof {
        assert(bytes@.take(bytes@.len() as int) =~= bytes@);
    }
    h
}

/// What decompressing a Snappy frame stream yields, if it is valid.
pub uninterp spec fn snap_decompressed(bytes: Seq<u8>) -> Option<Seq<u8>>;

/// What decoding a binary-serialized map from path string to hash yields,
/// if the bytes are a valid encoding.
pub uninterp spec fn bin_decoded(bytes: Seq<u8>) -> Option<Map<Seq<char>, u64>>;

/// Relies on snap::read::FrameDecoder: whether the bytes are a valid frame
/// stream, and what they decompress to, depend on the bytes alone.
#[verifier::external_body]
fn snap_decompress(bytes: &Vec<u8>) -> (r: Option<Vec<u8>>)
    ensures
        (r is Some) == (snap_decompressed(bytes@) is Some),
        r matches Some(out) ==> Some(out@) == snap_decompressed(bytes@),
{
    let mut dec = snap::read::FrameDecoder::new(bytes.as_slice());
    let mut out = Vec::new();
    std::io::Read::read_to_end(&mut dec, &mut out).ok().map(|_n| out)
}

/// Relies on snap::write::FrameEncoder writing into a Vec, which cannot
/// fail, and on Snappy being lossless: decompressing the output yields the
/// input again.
#[verifier::external_body]
fn snap_compress(bytes: &Vec<u8>) -> (r: Vec<u8>)
    ensures
        snap_decompressed(r@) == Some(bytes@),
{
    let mut enc = snap::write::FrameEncoder::new(Vec::new());
    std::io::Write::write_all(&mut enc, bytes).expect("writing to a Vec cannot fail");
    enc.into_inner().expect("flushing to a Vec cannot fail")
}

/// Relies on bincode::deserialize into a map from String to u64: whether
/// the bytes decode, and to what, depend on the bytes alone.
#[verifier::external_body]
fn bin_decode(bytes: &Vec<u8>) -> (r: Option<HashStore>)
    ensures
        (r is Some) == (bin_decoded(bytes@) is Some),
        r matches Some(st) ==> Some(store_map(st)) == bin_decoded(bytes@),
{
    bincode::deserialize::<hashbrown::HashMap<String, u64>>(bytes).ok().map(
        |map| HashStore { map },
    )
}

/// Relies on bincode::serialize of a map from String to u64, and on bincode
/// decoding what it encoded back to the same map. Serializing such a map
/// into a Vec has no failure path in the source (only writer errors exist,
/// and a Vec writer has none), so the call always succeeds.
#[verifier::external_body]
fn bin_encode(h: &HashStore) -> (r: Vec<u8>)
    ensures
        bin_decoded(r@) == Some(store_map(*h)),
{
    bincode::serialize(&h.map).expect("writing to a Vec cannot fail")
}

/// How a cache load went; the caller reports it on standard output.
pub enum LoadNote {
    /// No cache file was there; not an error.
    MissingFile,
    /// The compressed cache decoded.
    Loaded,
    /// The bytes were not compressed but decoded as the legacy raw format.
    LegacyLoaded,
    /// The bytes decoded under neither reading; the saved store is dropped.
    Corrupt,
}

/// What loading the cache yields for given file bytes: decompress and
/// decode; when decompression fails fall back to decoding the raw bytes as
/// the legacy format; `None` when the file is missing or nothing decodes.
pub open spec fn spec_load(bytes: Option<Seq<u8>>) -> Option<Map<Seq<char>, u64>> {
    match bytes {
        None => None,
        Some(bs) => match snap_decompressed(bs) {
            Some(raw) => bin_decoded(raw),
            None => bin_decoded(bs),
        },
    }
}

/// Decode the cache file's bytes (or their absence) into the saved hash
/// store, with a note saying which reading succeeded.
pub fn load_cache(bytes: Option<Vec<u8>>) -> (r: (Option<HashStore>, LoadNote))
    ensures
        (r.0 is Some) == (spec_load(match bytes {
            Some(b) => Some(b@),
            None => None,
        }) is Some),
        r.0 matches Some(st) ==> Some(store_map(st)) == spec_load(Some(bytes.unwrap()@)),
        bytes is None ==> r.1 is MissingFile,
        bytes matches Some(b) ==> {
            &&& (r.1 is Loaded) == (snap_decompressed(b@) is Some && spec_load(Some(b@)) is Some)
            &&& (r.1 is LegacyLoaded) == (snap_decompressed(b@) is None && spec_load(
                Some(b@),
            ) is Some)
            &&& (r.1 is Corrupt) == (spec_load(Some(b@)) is None)
        },
{
    match bytes {
        None => (None, LoadNote::MissingFile),
        Some(b) => {
            match snap_decompress(&b) {
                Some(raw) => {
                    match bin_decode(&raw) {
                        Some(st) => (Some(st), LoadNote::Loaded),
                        None => (None, LoadNote::Corrupt),
                    }
                },
                None => {
                    match bin_decode(&b) {
                        Some(st) => (Some(st), LoadNote::LegacyLoaded),
                        None => (None, LoadNote::Corrupt),
                    }
                },
            }
        },
    }
}

/// What to do with the cache when a run ends.
pub enum CachePlan {
    /// Nothing is written: a dry run, or nothing was recorded.
    Skip,
    /// These bytes are written to the cache file.
    Write(Vec<u8>),
}

/// Encode the current store for the cache file. Under dry-run, or with an
/// empty store, nothing is written; on every other input the store is
/// encoded, and what is written loads back to exactly its contents.
pub fn encode_cache(current: &HashStore, dry: bool) -> (r: CachePlan)
    ensures
        (r is Skip) == (dry || store_map(*current).dom() == Set::<Seq<char>>::empty()),
        (r is Write) == !(dry || store_map(*current).dom() == Set::<Seq<char>>::empty()),
        r matches CachePlan::Write(b) ==> spec_load(Some(b@)) == Some(store_map(*current)),
{
    if dry || current.is_empty() {
        CachePlan::Skip
    } else {
        let raw = bin_encode(current);
        CachePlan::Write(snap_compress(&raw))
    }
}

} // verus!
