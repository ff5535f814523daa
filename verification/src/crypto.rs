use vstd::prelude::*;

verus! {

/// Length of a public and of a secret key, in bytes.
pub const KEY_BYTES: usize = 32;

/// Number of bytes by which a sealed blob is longer than what was sealed.
pub const SEAL_BYTES: usize = 48;

/// The public half of a key pair: anyone holding it can seal blobs for the owner.
#[derive(Clone, Copy, Debug, PartialEq, Eq)]
pub struct PublicKey {
    pub bytes: [u8; 32],
}

/// The secret half of a key pair: it opens what was sealed for the public half.
#[derive(Clone, Copy, Debug, PartialEq, Eq)]
pub struct SecretKey {
    pub bytes: [u8; 32],
}

/// A public key with its secret key.
#[derive(Clone, Copy, Debug, PartialEq, Eq)]
pub struct KeyPair {
    pub public: PublicKey,
    pub secret: SecretKey,
}

/// What `sodiumoxide::crypto::sealedbox::open` makes of the sealed bytes `sealed` with the
/// public key `pk` and the secret key `sk`: the message, or nothing where it rejects them.
pub uninterp spec fn sealedbox_opened(sealed: Seq<u8>, pk: Seq<u8>, sk: Seq<u8>) -> Option<Seq<u8>>;

/// What `SecretKey::public_key` of `sodiumoxide::crypto::box_` computes from the secret key
/// `sk`: the public key that belongs to it.
pub uninterp spec fn public_key_of(sk: Seq<u8>) -> Seq<u8>;

/// Whether `sealed` opens to `message` with the public key `pk` and any secret key that
/// `pk` belongs to.
pub open spec fn sealed_for(sealed: Seq<u8>, message: Seq<u8>, pk: Seq<u8>) -> bool {
    forall|sk: Seq<u8>|
        public_key_of(sk) == pk ==> #[trigger] sealedbox_opened(sealed, pk, sk) == Some(message)
}

/// Calls `SecretKey::public_key` of `sodiumoxide::crypto::box_`, which computes the public
/// key that belongs to a secret key. The outcome is a function of the secret key.
#[verifier::external_body]
pub(crate) fn sodium_public_key(secret: &SecretKey) -> (public: PublicKey)
    ensures
        public.bytes@ == public_key_of(secret.bytes@),
{
    let sk = sodiumoxide::crypto::box_::SecretKey(secret.bytes);
    PublicKey { bytes: sk.public_key().0 }
}

/// Whether `public` is the public key that belongs to `secret`: then what is sealed for
/// `public` opens with the two.
pub fn belongs_to(public: &PublicKey, secret: &SecretKey) -> (r: bool)
    ensures
        r == (public_key_of(secret.bytes@) == public.bytes@),
{
    let found = sodium_public_key(secret);
    let mut k: usize = 0;
    while k < 32
        invariant
            k <= 32,
            found.bytes@ == public_key_of(secret.bytes@),
            forall|j: int| 0 <= j < k ==> found.bytes@[j] == public.bytes@[j],
        decreases 32 - k,
    {
        if found.bytes[k] != public.bytes[k] {
            assert(found.bytes@[k as int] != public.bytes@[k as int]);
            return false;
        }
        k += 1;
    }
    assert(found.bytes@ =~= public.bytes@);
    true
}

/// Calls `sodiumoxide::init`, which makes the library's random numbers safe to use from
/// several threads. Nothing is claimed of the outcome.
#[verifier::external_body]
pub(crate) fn sodium_init() -> (ok: bool) {
    sodiumoxide::init().is_ok()
}

/// Calls `sodiumoxide::crypto::sealedbox::seal`. The sealed bytes depend on a key pair that
/// is drawn at random for each call, so they are not named. What is stated holds of every
/// outcome: their length is that of the message plus `SEAL_BYTES`, and
/// `sodiumoxide::crypto::sealedbox::open` gives the message back for the public key and a
/// secret key that it belongs to, which is what a sealed box is for.
#[verifier::external_body]
pub(crate) fn sodium_seal(message: &Vec<u8>, public: &PublicKey) -> (sealed: Vec<u8>)
    ensures
        sealed@.len() == message@.len() + SEAL_BYTES,
        sealed_for(sealed@, message@, public.bytes@),
{
    let key = sodiumoxide::crypto::box_::PublicKey(public.bytes);
    sodiumoxide::crypto::sealedbox::seal(message, &key)
}

/// Calls `sodiumoxide::crypto::sealedbox::open`. The outcome is a function of the sealed
/// bytes and the key pair; a message that comes out is `SEAL_BYTES` shorter than the sealed
/// bytes.
#[verifier::external_body]
pub(crate) fn sodium_open(sealed: &Vec<u8>, public: &PublicKey, secret: &SecretKey) -> (r: Option<
    Vec<u8>,
>)
    ensures
        r matches Some(m) ==> sealedbox_opened(sealed@, public.bytes@, secret.bytes@) == Some(m@)
            && m@.len() + SEAL_BYTES == sealed@.len(),
        r is None ==> sealedbox_opened(sealed@, public.bytes@, secret.bytes@) is None,
{
    let pk = sodiumoxide::crypto::box_::PublicKey(public.bytes);
    let sk = sodiumoxide::crypto::box_::SecretKey(secret.bytes);
    sodiumoxide::crypto::sealedbox::open(sealed, &pk, &sk).ok()
}

/// Whether two keys hold the same bytes.
pub fn same_bytes(a: &[u8; 32], b: &[u8; 32]) -> (r: bool)
    ensures
        r == (a@ == b@),
{
    let mut i: usize = 0;
    while i < 32
        invariant
            i <= 32,
            forall|k: int| 0 <= k < i ==> a@[k] == b@[k],
        decreases 32 - i,
    {
        if a[i] != b[i] {
            return false;
        }
        i += 1;
    }
    assert(a@ =~= b@);
    true
}

/// The key store: the secret keys of this repository, found by their public keys.
pub struct KeyStore {
    keys: Vec<KeyPair>,
    model: Ghost<Map<Seq<u8>, SecretKey>>,
    row: Ghost<Map<Seq<u8>, int>>,
}

impl View for KeyStore {
    type V = Map<Seq<u8>, SecretKey>;

    closed spec fn view(&self) -> Map<Seq<u8>, SecretKey> {
        self.model@
    }
}

impl KeyStore {
    /// The pairs in the order in which they are kept.
    pub closed spec fn pairs(&self) -> Seq<KeyPair> {
        self.keys@
    }

    /// The store invariant: no public key occurs twice, and the pairs spell out the view.
    pub closed spec fn wf(&self) -> bool {
        &&& forall|k: int|
            0 <= k < self.keys@.len() ==> {
                let p = #[trigger] self.keys@[k];
                self.model@.dom().contains(p.public.bytes@) && self.model@[p.public.bytes@]
                    == p.secret && self.row@[p.public.bytes@] == k
            }
        &&& forall|key: Seq<u8>| #[trigger]
            self.model@.dom().contains(key) ==> {
                let k = self.row@[key];
                0 <= k < self.keys@.len() && self.keys@[k].public.bytes@ == key
            }
    }

    /// An empty key store.
    pub fn new() -> (s: KeyStore)
        ensures
            s.wf(),
            s@ == Map::<Seq<u8>, SecretKey>::empty(),
    {
        KeyStore { keys: Vec::new(), model: Ghost(Map::empty()), row: Ghost(Map::empty()) }
    }

    fn position(&self, public: &PublicKey) -> (r: Option<usize>)
        requires
            self.wf(),
        ensures
            match r {
                Some(k) => self@.dom().contains(public.bytes@) && k == self.row@[public.bytes@]
                    && k < self.keys@.len(),
                None => !self@.dom().contains(public.bytes@),
            },
    {
        let mut k: usize = 0;
        while k < self.keys.len()
            invariant
                self.wf(),
                k <= self.keys@.len(),
                forall|j: int|
                    0 <= j < k ==> (#[trigger] self.keys@[j]).public.bytes@ != public.bytes@,
            decreases self.keys@.len() - k,
        {
            if same_bytes(&self.keys[k].public.bytes, &public.bytes) {
                return Some(k);
            }
            k += 1;
        }
        None
    }

    /// Whether the secret key for `public` is in the store.
    pub fn contains_secret_key(&self, public: &PublicKey) -> (r: bool)
        requires
            self.wf(),
        ensures
            r == self@.dom().contains(public.bytes@),
    {
        self.position(public).is_some()
    }

    /// The secret key for `public`.
    pub fn get_secret_key(&self, public: &PublicKey) -> (r: Option<SecretKey>)
        requires
            self.wf(),
        ensures
            r == (if self@.dom().contains(public.bytes@) {
                Some(self@[public.bytes@])
            } else {
                None
            }),
    {
        match self.position(public) {
            Some(k) => Some(self.keys[k].secret),
            None => None,
        }
    }

    /// Puts a key pair into the store, replacing an earlier secret key for the same public key.
    pub fn register_secret_key(&mut self, public: PublicKey, secret: SecretKey)
        requires
            old(self).wf(),
        ensures
            final(self).wf(),
            final(self)@ == old(self)@.insert(public.bytes@, secret),
    {
        let ghost before = *self;
        match self.position(&public) {
            Some(k) => {
                self.keys.set(k, KeyPair { public, secret });
                proof {
                    self.model = Ghost(before.model@.insert(public.bytes@, secret));
                    assert forall|j: int| 0 <= j < self.keys@.len() implies {
                        let p = #[trigger] self.keys@[j];
                        self.model@.dom().contains(p.public.bytes@) && self.model@[p.public.bytes@]
                            == p.secret && self.row@[p.public.bytes@] == j
                    } by {
                        if j != k {
                            assert(self.keys@[j] == before.keys@[j]);
                        }
                    }
                }
            },
            None => {
                self.keys.push(KeyPair { public, secret });
                proof {
                    self.model = Ghost(before.model@.insert(public.bytes@, secret));
                    self.row = Ghost(before.row@.insert(public.bytes@, before.keys@.len() as int));
                    assert forall|j: int| 0 <= j < self.keys@.len() implies {
                        let p = #[trigger] self.keys@[j];
                        self.model@.dom().contains(p.public.bytes@) && self.model@[p.public.bytes@]
                            == p.secret && self.row@[p.public.bytes@] == j
                    } by {
                        if j < before.keys@.len() {
                            assert(self.keys@[j] == before.keys@[j]);
                        }
                    }
                }
            },
        }
    }

    /// Takes the pair of `public` out of the store. Returns whether it was there.
    pub fn remove_key(&mut self, public: &PublicKey) -> (was: bool)
        requires
            old(self).wf(),
        ensures
            final(self).wf(),
            was == old(self)@.dom().contains(public.bytes@),
            final(self)@ == old(self)@.remove(public.bytes@),
    {
        match self.position(public) {
            Some(k) => {
                let ghost before = *self;
                let ghost n = before.keys@.len() as int;
                let ghost moved = before.keys@[n - 1];
                self.keys.swap_remove(k);
                proof {
                    self.model = Ghost(before.model@.remove(public.bytes@));
                    if k < n - 1 {
                        self.row = Ghost(before.row@.insert(moved.public.bytes@, k as int));
                    }
                    assert forall|j: int| 0 <= j < self.keys@.len() implies {
                        let p = #[trigger] self.keys@[j];
                        self.model@.dom().contains(p.public.bytes@) && self.model@[p.public.bytes@]
                            == p.secret && self.row@[p.public.bytes@] == j
                    } by {
                        if j == k {
                            assert(self.keys@[j] == before.keys@[n - 1]);
                        } else {
                            assert(self.keys@[j] == before.keys@[j]);
                        }
                    }
                    assert forall|key: Seq<u8>| #[trigger]
                        self.model@.dom().contains(key) implies {
                        let j = self.row@[key];
                        0 <= j < self.keys@.len() && self.keys@[j].public.bytes@ == key
                    } by {
                        let j0 = before.row@[key];
                        assert(before.keys@[j0].public.bytes@ == key);
                    }
                }
                true
            },
            None => {
                assert(self@.remove(public.bytes@) =~= self@);
                false
            },
        }
    }

    /// The pairs of a store spell out its view.
    pub proof fn lemma_pairs(&self)
        requires
            self.wf(),
        ensures
            pairs_map(self.pairs()) == self@,
    {
        lemma_pairs_map(self.keys@);
        assert forall|key: Seq<u8>| self@.dom().contains(key) implies pairs_map(
            self.keys@,
        ).dom().contains(key) && pairs_map(self.keys@)[key] == self@[key] by {
            let k = self.row@[key];
            assert(self.keys@[k].public.bytes@ == key);
        }
        assert forall|key: Seq<u8>| pairs_map(self.keys@).dom().contains(
            key,
        ) implies self@.dom().contains(key) by {
            let k = choose|k: int|
                0 <= k < self.keys@.len() && (#[trigger] self.keys@[k]).public.bytes@ == key;
            assert(self@.dom().contains(self.keys@[k].public.bytes@));
        }
        assert(pairs_map(self.keys@) =~= self@);
    }

    /// The key pairs of the store.
    pub fn key_pairs(&self) -> (out: Vec<KeyPair>)
        requires
            self.wf(),
        ensures
            out@ == self.pairs(),
            forall|k: int|
                0 <= k < out@.len() ==> self@.contains_pair(
                    (#[trigger] out@[k]).public.bytes@,
                    out@[k].secret,
                ),
            forall|key: Seq<u8>|
                self@.dom().contains(key) ==> exists|k: int|
                    0 <= k < out@.len() && (#[trigger] out@[k]).public.bytes@ == key,
    {
        let mut out: Vec<KeyPair> = Vec::new();
        let mut k: usize = 0;
        while k < self.keys.len()
            invariant
                k <= self.keys@.len(),
                out@ == self.keys@.subrange(0, k as int),
            decreases self.keys@.len() - k,
        {
            out.push(self.keys[k]);
            assert(out@ =~= self.keys@.subrange(0, k + 1));
            k += 1;
        }
        assert(out@ =~= self.keys@);
        proof {
            assert forall|key: Seq<u8>| self@.dom().contains(key) implies exists|k: int|
                0 <= k < out@.len() && (#[trigger] out@[k]).public.bytes@ == key by {
                assert(out@[self.row@[key]].public.bytes@ == key);
            }
        }
        out
    }

    /// The store that holds `pairs`, a later pair replacing an earlier one for the same
    /// public key.
    pub fn load(pairs: &Vec<KeyPair>) -> (s: KeyStore)
        ensures
            s.wf(),
            s@ == pairs_map(pairs@),
    {
        let mut s = KeyStore::new();
        let mut k: usize = 0;
        while k < pairs.len()
            invariant
                k <= pairs@.len(),
                s.wf(),
                s@ == pairs_map(pairs@.subrange(0, k as int)),
            decreases pairs@.len() - k,
        {
            s.register_secret_key(pairs[k].public, pairs[k].secret);
            proof {
                assert(pairs@.subrange(0, k + 1).drop_last() =~= pairs@.subrange(0, k as int));
            }
            k += 1;
        }
        assert(pairs@.subrange(0, k as int) =~= pairs@);
        s
    }
}

/// What the table of `pairs` holds: the public keys of the pairs, each with the secret key
/// of the last pair that has it.
pub proof fn lemma_pairs_map(pairs: Seq<KeyPair>)
    ensures
        forall|key: Seq<u8>|
            pairs_map(pairs).dom().contains(key) <==> exists|k: int|
                0 <= k < pairs.len() && (#[trigger] pairs[k]).public.bytes@ == key,
        forall|k: int|
            0 <= k < pairs.len() && (forall|j: int|
                k < j < pairs.len() ==> (#[trigger] pairs[j]).public.bytes@
                    != pairs[k].public.bytes@) ==> pairs_map(pairs)[(
            #[trigger] pairs[k]).public.bytes@] == pairs[k].secret,
    decreases pairs.len(),
{
    if pairs.len() > 0 {
        let front = pairs.drop_last();
        lemma_pairs_map(front);
        assert forall|key: Seq<u8>|
            pairs_map(pairs).dom().contains(key) <==> exists|k: int|
                0 <= k < pairs.len() && (#[trigger] pairs[k]).public.bytes@ == key by {
            if pairs_map(front).dom().contains(key) {
                let k = choose|k: int|
                    0 <= k < front.len() && (#[trigger] front[k]).public.bytes@ == key;
                assert(pairs[k].public.bytes@ == key);
            }
            if key == pairs.last().public.bytes@ {
                assert(pairs[pairs.len() - 1].public.bytes@ == key);
            }
            if exists|k: int| 0 <= k < pairs.len() && (#[trigger] pairs[k]).public.bytes@ == key {
                let k = choose|k: int|
                    0 <= k < pairs.len() && (#[trigger] pairs[k]).public.bytes@ == key;
                if k < front.len() {
                    assert(front[k].public.bytes@ == key);
                }
            }
        }
        assert forall|k: int|
            0 <= k < pairs.len() && (forall|j: int|
                k < j < pairs.len() ==> (#[trigger] pairs[j]).public.bytes@
                    != pairs[k].public.bytes@) implies pairs_map(pairs)[(
        #[trigger] pairs[k]).public.bytes@] == pairs[k].secret by {
            if k < front.len() {
                assert(pairs[pairs.len() - 1].public.bytes@ != pairs[k].public.bytes@);
                assert(front[k] == pairs[k]);
                assert forall|j: int| k < j < front.len() implies (#[trigger] front[j]).public.bytes@
                    != front[k].public.bytes@ by {
                    assert(pairs[j].public.bytes@ != pairs[k].public.bytes@);
                }
            }
        }
    }
}

/// The table that `pairs` spell out when they are registered one after the other.
pub open spec fn pairs_map(pairs: Seq<KeyPair>) -> Map<Seq<u8>, SecretKey>
    decreases pairs.len(),
{
    if pairs.len() == 0 {
        Map::empty()
    } else {
        pairs_map(pairs.drop_last()).insert(pairs.last().public.bytes@, pairs.last().secret)
    }
}

} // verus!
